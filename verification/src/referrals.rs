//! Error models that refer to check models of other gadgets: which check model knows
//! of them, and which of them still wait for a connection or for a check model.
use crate::bin::{copy_vec, Connector, RemoteCheckModel};
use crate::collections::PortMap;
use crate::dem_log::{DemLog, DemState};
use crate::network::{CheckModel, Gadget};
use crate::registry::Registry;
use crate::remote::{
    blocking_port, check_model_slots, check_model_slots_of, find_blocking_port, referral_of, resolve_remote_check_model_gid,
    Referral,
};
use vstd::prelude::*;

verus! {

/// A reference that waits for an output port to be connected.
#[derive(Debug)]
pub struct PendingPortReferral {
    pub eid: u64,
    /// the slot of the error model that waits
    pub ri: usize,
    pub owner_gid: u64,
    /// the slots of the error model
    pub modified_remote: Vec<Option<RemoteCheckModel>>,
}

/// The value of a [`PendingPortReferral`].
#[verifier::ext_equal]
pub struct PendingReference {
    pub eid: u64,
    pub ri: usize,
    pub owner_gid: u64,
    pub slots: Seq<Option<RemoteCheckModel>>,
}

impl PendingPortReferral {
    /// The reference as a mathematical value.
    pub open spec fn view(self) -> PendingReference {
        PendingReference { eid: self.eid, ri: self.ri, owner_gid: self.owner_gid, slots: self.modified_remote@ }
    }
}

/// The values of a list of references.
pub open spec fn references_view(list: Seq<PendingPortReferral>) -> Seq<PendingReference> {
    list.map_values(|r: PendingPortReferral| r@)
}

// ---------------------------------------------------------------------------
// References that wait for a port
// ---------------------------------------------------------------------------

/// The references that wait for each port.
pub struct PortReferrals {
    index: PortMap,
    rows: Vec<Vec<PendingPortReferral>>,
}

impl PortReferrals {
    /// Every port has a row of its own.
    pub closed spec fn wf(&self) -> bool {
        &&& forall|key: (u64, u64)| #[trigger] self.index@.contains_key(key) ==> self.index@[key] < self.rows@.len()
        &&& forall|a: (u64, u64), b: (u64, u64)|
            self.index@.contains_key(a) && self.index@.contains_key(b) && a != b ==> #[trigger] self.index@[a]
                != #[trigger] self.index@[b]
    }

    /// What waits for a port.
    pub closed spec fn at(&self, key: (u64, u64)) -> Seq<PendingReference> {
        if self.index@.contains_key(key) {
            references_view(self.rows@[self.index@[key] as int]@)
        } else {
            Seq::empty()
        }
    }

    /// What waits for each port.
    pub open spec fn view(&self) -> Map<(u64, u64), Seq<PendingReference>> {
        Map::new(|key: (u64, u64)| true, |key: (u64, u64)| self.at(key))
    }

    /// Nothing waits.
    pub fn new() -> (r: PortReferrals)
        ensures
            r.wf(),
            forall|key: (u64, u64)| #[trigger] r@[key] == Seq::<PendingReference>::empty(),
    {
        PortReferrals { index: PortMap::new(), rows: Vec::new() }
    }

    /// Adds a reference that waits for a port.
    fn push(&mut self, gid: u64, port: u64, referral: PendingPortReferral)
        requires
            old(self).wf(),
        ensures
            final(self).wf(),
            final(self)@ == old(self)@.insert((gid, port), old(self)@[(gid, port)].push(referral@)),
    {
        let ghost before = *self;
        let ghost key = (gid, port);
        match self.index.get(gid, port) {
            Some(row) => {
                assert(self.index@.contains_key(key));
                assert(row < self.rows.len());
                let ghost list = self.rows@[row as int]@;
                self.rows[row as usize].push(referral);
                assert(references_view(self.rows@[row as int]@) =~= references_view(list).push(referral@));
            },
            None => {
                let mut list: Vec<PendingPortReferral> = Vec::new();
                list.push(referral);
                assert(references_view(list@) =~= Seq::<PendingReference>::empty().push(referral@));
                self.index.insert(gid, port, self.rows.len() as u64);
                self.rows.push(list);
            },
        }
        proof {
            assert forall|k: (u64, u64)| k != key implies #[trigger] self.at(k) == before.at(k) by {
                if before.index@.contains_key(k) && before.index@.contains_key(key) {
                    assert(before.index@[k] != before.index@[key]);
                }
            }
            assert(self@ =~= before@.insert(key, before@[key].push(referral@)));
        }
    }

    /// Takes what waits for a port.
    fn take(&mut self, gid: u64, port: u64) -> (list: Vec<PendingPortReferral>)
        requires
            old(self).wf(),
        ensures
            final(self).wf(),
            references_view(list@) == old(self)@[(gid, port)],
            final(self)@ == old(self)@.insert((gid, port), Seq::empty()),
    {
        let ghost before = *self;
        let ghost key = (gid, port);
        let mut list: Vec<PendingPortReferral> = Vec::new();
        match self.index.get(gid, port) {
            Some(row) => {
                assert(self.index@.contains_key(key));
                assert(row < self.rows.len());
                std::mem::swap(&mut list, &mut self.rows[row as usize]);
                assert(references_view(self.rows@[row as int]@) =~= Seq::<PendingReference>::empty());
            },
            None => {
                assert(references_view(list@) =~= Seq::<PendingReference>::empty());
            },
        }
        proof {
            assert forall|k: (u64, u64)| k != key implies #[trigger] self.at(k) == before.at(k) by {
                if before.index@.contains_key(k) && before.index@.contains_key(key) {
                    assert(before.index@[k] != before.index@[key]);
                }
            }
            assert(self@ =~= before@.insert(key, Seq::empty()));
        }
        list
    }
}

// ---------------------------------------------------------------------------
// All references
// ---------------------------------------------------------------------------

/// The references that wait.
pub struct Referrals {
    /// for a gadget to get a check model: error model and slot
    pub by_gid: Registry<Vec<(u64, usize)>>,
    /// for an output port to be connected
    pub by_port: PortReferrals,
}

/// What is known of the references of a program.
#[verifier::ext_equal]
pub struct ReferralState {
    /// what waits for each gadget to get a check model
    pub by_gid: Map<u64, Seq<(u64, usize)>>,
    /// what waits for each port to be connected
    pub by_port: Map<(u64, u64), Seq<PendingReference>>,
    /// the error models that each check model knows to refer to it
    pub referring: Map<u64, Seq<u64>>,
    pub log: DemState,
}

/// The error models that each check model knows to refer to it.
pub open spec fn referring_of(check_models: Map<u64, CheckModel>) -> Map<u64, Seq<u64>> {
    check_models.map_values(|c: CheckModel| c.referring_eids@)
}

/// What waits for each gadget, by gadget.
pub open spec fn by_gid_view(table: Map<u64, Vec<(u64, usize)>>) -> Map<u64, Seq<(u64, usize)>> {
    Map::new(
        |g: u64| true,
        |g: u64|
            if table.contains_key(g) {
                table[g]@
            } else {
                Seq::empty()
            },
    )
}

impl ReferralState {
    /// One more reference that waits for a gadget to get a check model.
    pub open spec fn with_waiting_gadget(self, gid: u64, eid: u64, ri: usize) -> ReferralState {
        ReferralState { by_gid: self.by_gid.insert(gid, self.by_gid[gid].push((eid, ri))), ..self }
    }

    /// One more reference that waits for a port.
    pub open spec fn with_waiting_port(self, port: Connector, reference: PendingReference) -> ReferralState {
        ReferralState {
            by_port: self.by_port.insert(
                (port.gid, port.port),
                self.by_port[(port.gid, port.port)].push(reference),
            ),
            ..self
        }
    }

    /// A reference is resolved in the log.
    pub open spec fn with_logged(self, eid: u64, ri: usize, cid: u64) -> ReferralState {
        ReferralState { log: self.log.after_remote_resolved(eid, ri as int, cid), ..self }
    }

    /// A check model, if it exists, gets to know an error model that refers to it.
    pub open spec fn with_referring(self, cid: u64, eid: u64) -> ReferralState {
        if self.referring.contains_key(cid) {
            ReferralState { referring: self.referring.insert(cid, self.referring[cid].push(eid)), ..self }
        } else {
            self
        }
    }

    /// A reference by ports is followed as far as it goes now. It is resolved if it leads
    /// to a gadget with a check model, its owner included; otherwise it waits for what
    /// stops it.
    pub open spec fn settled(self, gadgets: Map<u64, Gadget>, r: PendingReference, own_cid: Option<u64>) -> ReferralState {
        let slots = check_model_slots(r.slots);
        match referral_of(gadgets, slots, r.owner_gid, r.ri as int) {
            Referral::At(target) => if target == r.owner_gid {
                match own_cid {
                    Some(cid) => self.with_logged(r.eid, r.ri, cid),
                    None => self,
                }
            } else if !gadgets.contains_key(target) {
                self
            } else {
                match gadgets[target].binding_cid {
                    Some(cid) => self.with_referring(cid, r.eid).with_logged(r.eid, r.ri, cid),
                    None => self.with_waiting_gadget(target, r.eid, r.ri),
                }
            },
            Referral::Unresolved => match blocking_port(gadgets, slots, r.owner_gid, r.ri as int, slots.len()) {
                Some(port) => self.with_waiting_port(port, r),
                None => self,
            },
            _ => self,
        }
    }

    /// The first `n` references that waited for a port are followed.
    pub open spec fn all_settled(self, gadgets: Map<u64, Gadget>, list: Seq<PendingReference>, n: int) -> ReferralState
        decreases n,
    {
        if n <= 0 {
            self
        } else {
            let r = list[n - 1];
            self.all_settled(gadgets, list, n - 1).settled(gadgets, r, owner_binding(gadgets, r.owner_gid))
        }
    }

    /// A port was connected: what waited for it is followed again.
    pub open spec fn port_connected(self, gadgets: Map<u64, Gadget>, port: Connector) -> ReferralState {
        let key = (port.gid, port.port);
        let list = self.by_port[key];
        ReferralState { by_port: self.by_port.insert(key, Seq::empty()), ..self }.all_settled(
            gadgets,
            list,
            list.len() as int,
        )
    }

    /// The first `n` ports were connected.
    pub open spec fn ports_connected(self, gadgets: Map<u64, Gadget>, ports: Seq<Connector>, n: int) -> ReferralState
        decreases n,
    {
        if n <= 0 {
            self
        } else {
            self.ports_connected(gadgets, ports, n - 1).port_connected(gadgets, ports[n - 1])
        }
    }

    /// Slot `ri` of a new error model that is attached to check model `cid`: a slot that
    /// names its check model is resolved at once, a removed slot never.
    pub open spec fn slot_registered(self, gadgets: Map<u64, Gadget>, r: PendingReference, cid: u64) -> ReferralState {
        match r.slots[r.ri as int] {
            None => self,
            Some(slot) => match slot.absolute_cid {
                Some(absolute) => self.with_logged(r.eid, r.ri, absolute),
                None => self.settled(gadgets, r, Some(cid)),
            },
        }
    }

    /// The first `n` slots of a new error model.
    pub open spec fn slots_registered(
        self,
        gadgets: Map<u64, Gadget>,
        eid: u64,
        owner_gid: u64,
        slots: Seq<Option<RemoteCheckModel>>,
        cid: u64,
        n: int,
    ) -> ReferralState
        decreases n,
    {
        if n <= 0 {
            self
        } else {
            self.slots_registered(gadgets, eid, owner_gid, slots, cid, n - 1).slot_registered(
                gadgets,
                PendingReference { eid, ri: (n - 1) as usize, owner_gid, slots },
                cid,
            )
        }
    }
}

/// The check model of a gadget, if both exist.
pub open spec fn owner_binding(gadgets: Map<u64, Gadget>, gid: u64) -> Option<u64> {
    if gadgets.contains_key(gid) {
        gadgets[gid].binding_cid
    } else {
        None
    }
}

/// Two check models that differ only in the error models that they know to refer to
/// them.
pub open spec fn same_but_referring(a: CheckModel, b: CheckModel) -> bool {
    &&& a.instance == b.instance
    &&& a.attaching_eid_vec == b.attaching_eid_vec
    &&& a.modified_remote_gadgets == b.modified_remote_gadgets
    &&& a.expanded_remote_gadgets == b.expanded_remote_gadgets
    &&& a.syndrome == b.syndrome
}

/// The check models are the same, up to the error models that they know to refer to
/// them.
pub open spec fn all_same_but_referring(before: Map<u64, CheckModel>, after: Map<u64, CheckModel>) -> bool {
    &&& after.dom() == before.dom()
    &&& forall|cid: u64| #[trigger] before.contains_key(cid) ==> same_but_referring(before[cid], after[cid])
}

impl Referrals {
    /// The tables are in order.
    pub open spec fn wf(&self) -> bool {
        self.by_gid.wf() && self.by_port.wf()
    }

    /// Nothing waits.
    pub fn new() -> (r: Referrals)
        ensures
            r.wf(),
            r.is_empty(),
    {
        Referrals { by_gid: Registry::new(), by_port: PortReferrals::new() }
    }

    /// Nothing waits.
    pub open spec fn is_empty(&self) -> bool {
        &&& forall|g: u64| #[trigger] by_gid_view(self.by_gid@)[g] == Seq::<(u64, usize)>::empty()
        &&& forall|key: (u64, u64)| #[trigger] self.by_port@[key] == Seq::<PendingReference>::empty()
    }

    /// What is known of the references, with the check models and the log.
    pub open spec fn state(&self, check_models: &Registry<CheckModel>, dem_log: &DemLog) -> ReferralState {
        ReferralState {
            by_gid: by_gid_view(self.by_gid@),
            by_port: self.by_port@,
            referring: referring_of(check_models@),
            log: dem_log@,
        }
    }

    /// Notes that a reference waits for a gadget to get a check model.
    fn wait_for_gadget(&mut self, gid: u64, eid: u64, ri: usize)
        requires
            old(self).wf(),
        ensures
            final(self).wf(),
            final(self).by_port == old(self).by_port,
            by_gid_view(final(self).by_gid@) == by_gid_view(old(self).by_gid@).insert(
                gid,
                by_gid_view(old(self).by_gid@)[gid].push((eid, ri)),
            ),
    {
        let ghost before = self.by_gid@;
        if self.by_gid.contains_key(gid) {
            self.by_gid.get_mut(gid).push((eid, ri));
        } else {
            let mut list: Vec<(u64, usize)> = Vec::new();
            list.push((eid, ri));
            assert(list@ =~= Seq::<(u64, usize)>::empty().push((eid, ri)));
            self.by_gid.insert(gid, list);
        }
        assert(by_gid_view(self.by_gid@) =~= by_gid_view(before).insert(gid, by_gid_view(before)[gid].push((eid, ri))));
    }

    /// Takes what waits for a gadget to get a check model.
    fn take_waiting(&mut self, gid: u64) -> (list: Vec<(u64, usize)>)
        requires
            old(self).wf(),
        ensures
            final(self).wf(),
            final(self).by_port == old(self).by_port,
            list@ == by_gid_view(old(self).by_gid@)[gid],
            by_gid_view(final(self).by_gid@) == by_gid_view(old(self).by_gid@).insert(gid, Seq::empty()),
    {
        let ghost before = self.by_gid@;
        let list = match self.by_gid.remove(gid) {
            Some(list) => list,
            None => Vec::new(),
        };
        assert(by_gid_view(self.by_gid@) =~= by_gid_view(before).insert(gid, Seq::empty()));
        list
    }

    /// Follows a reference as far as it goes now.
    fn settle(
        &mut self,
        check_models: &mut Registry<CheckModel>,
        dem_log: &mut DemLog,
        gadgets: &Registry<Gadget>,
        referral: PendingPortReferral,
        own_cid: Option<u64>,
    )
        requires
            old(self).wf(),
            old(check_models).wf(),
            old(dem_log).wf(),
            gadgets.wf(),
            referral.ri < referral.modified_remote@.len(),
        ensures
            final(self).wf(),
            final(check_models).wf(),
            final(dem_log).wf(),
            all_same_but_referring(old(check_models)@, final(check_models)@),
            final(self).state(final(check_models), final(dem_log)) == old(self).state(
                old(check_models),
                old(dem_log),
            ).settled(gadgets@, referral@, own_cid),
    {
        let ghost before = self.state(check_models, dem_log);
        let ghost models = check_models@;
        let slots = check_model_slots_of(&referral.modified_remote);
        match resolve_remote_check_model_gid(gadgets, &slots, referral.owner_gid, referral.ri) {
            Referral::At(target) => {
                if target == referral.owner_gid {
                    if let Some(cid) = own_cid {
                        dem_log.on_remote_resolved(referral.eid, referral.ri, cid);
                    }
                } else {
                    if let Some(gadget) = gadgets.get(target) {
                        match gadget.binding_cid {
                            Some(cid) => {
                                if check_models.contains_key(cid) {
                                    check_models.get_mut(cid).referring_eids.push(referral.eid);
                                    proof {
                                        assert(check_models@.dom() =~= models.dom());
                                        assert(referring_of(check_models@) =~= before.referring.insert(
                                            cid,
                                            before.referring[cid].push(referral.eid),
                                        ));
                                    }
                                }
                                dem_log.on_remote_resolved(referral.eid, referral.ri, cid);
                            },
                            None => {
                                self.wait_for_gadget(target, referral.eid, referral.ri);
                            },
                        }
                    }
                }
            },
            Referral::Unresolved => {
                if let Some(port) = find_blocking_port(referral.ri, &slots, referral.owner_gid, gadgets) {
                    self.by_port.push(port.gid, port.port, referral);
                }
            },
            _ => {},
        }
        assert(self.state(check_models, dem_log) =~= before.settled(gadgets@, referral@, own_cid));
    }

    /// Follows again what waited for a port that was connected.
    fn connect_port(
        &mut self,
        check_models: &mut Registry<CheckModel>,
        dem_log: &mut DemLog,
        gadgets: &Registry<Gadget>,
        port: Connector,
    )
        requires
            old(self).wf(),
            old(check_models).wf(),
            old(dem_log).wf(),
            gadgets.wf(),
            references_valid(old(self).by_port@),
        ensures
            final(self).wf(),
            final(check_models).wf(),
            final(dem_log).wf(),
            references_valid(final(self).by_port@),
            all_same_but_referring(old(check_models)@, final(check_models)@),
            final(self).state(final(check_models), final(dem_log)) == old(self).state(
                old(check_models),
                old(dem_log),
            ).port_connected(gadgets@, port),
    {
        let ghost before = self.state(check_models, dem_log);
        let ghost models = check_models@;
        let list = self.by_port.take(port.gid, port.port);
        let ghost entries = references_view(list@);
        let ghost start = self.state(check_models, dem_log);
        proof {
            assert(start =~= (ReferralState {
                by_port: before.by_port.insert((port.gid, port.port), Seq::empty()),
                ..before
            }));
            assert forall|i: int| 0 <= i < entries.len() implies reference_valid(#[trigger] entries[i]) by {
                assert(reference_valid(before.by_port[(port.gid, port.port)][i]));
            }
        }
        for referral in it: list
            invariant
                it.seq() == list@,
                entries == references_view(list@),
                self.wf(),
                check_models.wf(),
                dem_log.wf(),
                gadgets.wf(),
                references_valid(self.by_port@),
                all_same_but_referring(models, check_models@),
                forall|i: int| 0 <= i < entries.len() ==> reference_valid(#[trigger] entries[i]),
                self.state(check_models, dem_log) == start.all_settled(gadgets@, entries, it.index()),
        {
            let ghost n = it.index();
            assert(entries[n] == referral@);
            let own_cid = match gadgets.get(referral.owner_gid) {
                Some(owner) => owner.binding_cid,
                None => None,
            };
            let ghost now = self.state(check_models, dem_log);
            self.settle(check_models, dem_log, gadgets, referral, own_cid);
            proof {
                lemma_settled_valid(now, gadgets@, entries[n], own_cid);
            }
        }
        proof {
            assert(self.state(check_models, dem_log) == before.port_connected(gadgets@, port));
        }
    }

    /// Follows again what waited for the ports that a new gadget was connected to.
    pub fn connect_ports(
        &mut self,
        check_models: &mut Registry<CheckModel>,
        dem_log: &mut DemLog,
        gadgets: &Registry<Gadget>,
        ports: &Vec<Connector>,
    )
        requires
            old(self).wf(),
            old(check_models).wf(),
            old(dem_log).wf(),
            gadgets.wf(),
            references_valid(old(self).by_port@),
        ensures
            final(self).wf(),
            final(check_models).wf(),
            final(dem_log).wf(),
            references_valid(final(self).by_port@),
            all_same_but_referring(old(check_models)@, final(check_models)@),
            final(self).state(final(check_models), final(dem_log)) == old(self).state(
                old(check_models),
                old(dem_log),
            ).ports_connected(gadgets@, ports@, ports@.len() as int),
    {
        let ghost before = self.state(check_models, dem_log);
        let ghost models = check_models@;
        let mut k: usize = 0;
        while k < ports.len()
            invariant
                k <= ports@.len(),
                self.wf(),
                check_models.wf(),
                dem_log.wf(),
                gadgets.wf(),
                references_valid(self.by_port@),
                all_same_but_referring(models, check_models@),
                self.state(check_models, dem_log) == before.ports_connected(gadgets@, ports@, k as int),
            decreases ports@.len() - k,
        {
            self.connect_port(check_models, dem_log, gadgets, ports[k]);
            k += 1;
        }
    }

    /// Registers the slots of a new error model.
    pub fn register_slots(
        &mut self,
        check_models: &mut Registry<CheckModel>,
        dem_log: &mut DemLog,
        gadgets: &Registry<Gadget>,
        eid: u64,
        owner_gid: u64,
        slots: &Vec<Option<RemoteCheckModel>>,
        cid: u64,
    )
        requires
            old(self).wf(),
            old(check_models).wf(),
            old(dem_log).wf(),
            gadgets.wf(),
            references_valid(old(self).by_port@),
        ensures
            final(self).wf(),
            final(check_models).wf(),
            final(dem_log).wf(),
            references_valid(final(self).by_port@),
            all_same_but_referring(old(check_models)@, final(check_models)@),
            final(self).state(final(check_models), final(dem_log)) == old(self).state(
                old(check_models),
                old(dem_log),
            ).slots_registered(gadgets@, eid, owner_gid, slots@, cid, slots@.len() as int),
    {
        let ghost before = self.state(check_models, dem_log);
        let ghost models = check_models@;
        let mut ri: usize = 0;
        while ri < slots.len()
            invariant
                ri <= slots@.len(),
                self.wf(),
                check_models.wf(),
                dem_log.wf(),
                gadgets.wf(),
                references_valid(self.by_port@),
                all_same_but_referring(models, check_models@),
                self.state(check_models, dem_log) == before.slots_registered(
                    gadgets@,
                    eid,
                    owner_gid,
                    slots@,
                    cid,
                    ri as int,
                ),
            decreases slots@.len() - ri,
        {
            let ghost now = self.state(check_models, dem_log);
            let ghost reference = PendingReference { eid, ri, owner_gid, slots: slots@ };
            if let Some(slot) = &slots[ri] {
                match slot.absolute_cid {
                    Some(absolute) => {
                        dem_log.on_remote_resolved(eid, ri, absolute);
                        assert(self.state(check_models, dem_log) =~= now.with_logged(eid, ri, absolute));
                    },
                    None => {
                        let referral = PendingPortReferral { eid, ri, owner_gid, modified_remote: copy_vec(slots) };
                        assert(referral@ =~= reference);
                        self.settle(check_models, dem_log, gadgets, referral, Some(cid));
                        proof {
                            lemma_settled_valid(now, gadgets@, reference, Some(cid));
                        }
                    },
                }
            }
            assert(self.state(check_models, dem_log) == now.slot_registered(gadgets@, reference, cid));
            ri += 1;
        }
    }

    /// Resolves what waited for a gadget that got check model `cid`; the result lists the
    /// error models that refer to it.
    pub fn bind_gadget(&mut self, dem_log: &mut DemLog, gid: u64, cid: u64) -> (eids: Vec<u64>)
        requires
            old(self).wf(),
            old(dem_log).wf(),
        ensures
            final(self).wf(),
            final(dem_log).wf(),
            final(self).by_port == old(self).by_port,
            by_gid_view(final(self).by_gid@) == by_gid_view(old(self).by_gid@).insert(gid, Seq::empty()),
            eids@ == by_gid_view(old(self).by_gid@)[gid].map_values(|w: (u64, usize)| w.0),
            final(dem_log)@ == logged(
                old(dem_log)@,
                by_gid_view(old(self).by_gid@)[gid],
                cid,
                by_gid_view(old(self).by_gid@)[gid].len() as int,
            ),
    {
        let list = self.take_waiting(gid);
        let ghost log = dem_log@;
        let mut eids: Vec<u64> = Vec::new();
        let mut i: usize = 0;
        while i < list.len()
            invariant
                i <= list@.len(),
                dem_log.wf(),
                eids@ =~= list@.map_values(|w: (u64, usize)| w.0).take(i as int),
                dem_log@ == logged(log, list@, cid, i as int),
            decreases list@.len() - i,
        {
            let (eid, ri) = list[i];
            dem_log.on_remote_resolved(eid, ri, cid);
            eids.push(eid);
            i += 1;
        }
        assert(eids@ =~= list@.map_values(|w: (u64, usize)| w.0));
        eids
    }
}

/// The log after the first `n` references were resolved to check model `cid`.
pub open spec fn logged(log: DemState, list: Seq<(u64, usize)>, cid: u64, n: int) -> DemState
    decreases n,
{
    if n <= 0 {
        log
    } else {
        logged(log, list, cid, n - 1).after_remote_resolved(list[n - 1].0, list[n - 1].1 as int, cid)
    }
}

/// A reference names one of its slots.
pub open spec fn reference_valid(r: PendingReference) -> bool {
    r.ri < r.slots.len()
}

/// Every reference that waits for a port names one of its slots.
pub open spec fn references_valid(by_port: Map<(u64, u64), Seq<PendingReference>>) -> bool {
    forall|key: (u64, u64), i: int| 0 <= i < by_port[key].len() ==> reference_valid(#[trigger] by_port[key][i])
}

/// Following a valid reference leaves valid references.
proof fn lemma_settled_valid(state: ReferralState, gadgets: Map<u64, Gadget>, r: PendingReference, own_cid: Option<u64>)
    requires
        references_valid(state.by_port),
        reference_valid(r),
    ensures
        references_valid(state.settled(gadgets, r, own_cid).by_port),
{
    let after = state.settled(gadgets, r, own_cid).by_port;
    assert forall|key: (u64, u64), i: int| 0 <= i < after[key].len() implies reference_valid(#[trigger] after[key][i]) by {
        if i < state.by_port[key].len() {
            assert(reference_valid(state.by_port[key][i]));
        }
    }
}

/// A reference that is followed is resolved, or waits for one thing only: for one
/// gadget, or for one port.
pub proof fn law_reference_waits_for_one_thing(
    state: ReferralState,
    gadgets: Map<u64, Gadget>,
    r: PendingReference,
    own_cid: Option<u64>,
)
    ensures
        ({
            let after = state.settled(gadgets, r, own_cid);
            ||| after.by_gid == state.by_gid && after.by_port == state.by_port
            ||| after.by_port == state.by_port && exists|g: u64| #[trigger]
                after.by_gid[g] == state.by_gid[g].push((r.eid, r.ri)) && after.by_gid == state.by_gid.insert(
                    g,
                    after.by_gid[g],
                )
            ||| after.by_gid == state.by_gid && exists|key: (u64, u64)| #[trigger]
                after.by_port[key] == state.by_port[key].push(r) && after.by_port == state.by_port.insert(
                    key,
                    after.by_port[key],
                )
        }),
{
    let after = state.settled(gadgets, r, own_cid);
    let slots = check_model_slots(r.slots);
    match referral_of(gadgets, slots, r.owner_gid, r.ri as int) {
        Referral::At(target) => {
            if target != r.owner_gid && gadgets.contains_key(target) && gadgets[target].binding_cid is None {
                assert(after.by_gid[target] == state.by_gid[target].push((r.eid, r.ri)));
                assert(after.by_gid =~= state.by_gid.insert(target, after.by_gid[target]));
            }
        },
        Referral::Unresolved => {
            if let Some(port) = blocking_port(gadgets, slots, r.owner_gid, r.ri as int, slots.len()) {
                let key = (port.gid, port.port);
                assert(after.by_port[key] == state.by_port[key].push(r));
                assert(after.by_port =~= state.by_port.insert(key, after.by_port[key]));
            }
        },
        _ => {},
    }
}

/// What waits for a port waits for an open one: the port that stops a reference is not
/// connected.
pub proof fn law_reference_waits_for_open_port(
    state: ReferralState,
    gadgets: Map<u64, Gadget>,
    r: PendingReference,
    own_cid: Option<u64>,
    key: (u64, u64),
)
    requires
        state.settled(gadgets, r, own_cid).by_port[key] != state.by_port[key],
    ensures
        gadgets.contains_key(key.0),
        key.1 < gadgets[key.0].outputs@.len(),
        gadgets[key.0].outputs@[key.1 as int] is None,
{
    let slots = check_model_slots(r.slots);
    crate::remote::law_blocking_port_is_open(gadgets, slots, r.owner_gid, r.ri as int, slots.len());
}

/// Registering keeps what waits and what is known: lists only grow.
proof fn lemma_settled_grows(
    state: ReferralState,
    gadgets: Map<u64, Gadget>,
    r: PendingReference,
    own_cid: Option<u64>,
    g: u64,
    waiting: (u64, usize),
    key: (u64, u64),
    blocked: PendingReference,
    cid: u64,
    eid: u64,
)
    ensures
        ({
            let after = state.settled(gadgets, r, own_cid);
            &&& state.by_gid[g].contains(waiting) ==> after.by_gid[g].contains(waiting)
            &&& state.by_port[key].contains(blocked) ==> after.by_port[key].contains(blocked)
            &&& after.referring.dom() == state.referring.dom()
            &&& state.referring.contains_key(cid) && state.referring[cid].contains(eid) ==> after.referring[cid].contains(eid)
        }),
{
    let after = state.settled(gadgets, r, own_cid);
    assert(after.referring.dom() =~= state.referring.dom());
    if state.by_gid[g].contains(waiting) {
        let k = state.by_gid[g].index_of(waiting);
        assert(after.by_gid[g][k] == waiting);
    }
    if state.by_port[key].contains(blocked) {
        let k = state.by_port[key].index_of(blocked);
        assert(after.by_port[key][k] == blocked);
    }
    if state.referring.contains_key(cid) && state.referring[cid].contains(eid) {
        let k = state.referring[cid].index_of(eid);
        assert(after.referring[cid][k] == eid);
    }
}

/// Every slot of a registered error model is looked after. One that leads to another gadget
/// makes the error model known to the check model there, or waits for that gadget to get
/// one; one that is stopped by an open port waits for this port.
pub proof fn law_registered_slot_is_looked_after(
    state: ReferralState,
    gadgets: Map<u64, Gadget>,
    eid: u64,
    owner_gid: u64,
    slots: Seq<Option<RemoteCheckModel>>,
    cid: u64,
    n: int,
    ri: int,
)
    requires
        0 <= ri < n <= slots.len(),
        n <= usize::MAX,
        slots[ri] is Some,
        slots[ri]->0.absolute_cid is None,
    ensures
        ({
            let after = state.slots_registered(gadgets, eid, owner_gid, slots, cid, n);
            let found = referral_of(gadgets, check_model_slots(slots), owner_gid, ri);
            &&& after.referring.dom() == state.referring.dom()
            &&& found matches Referral::At(target) ==> (target != owner_gid && gadgets.contains_key(target) ==> {
                &&& gadgets[target].binding_cid matches Some(to) ==> (state.referring.contains_key(to)
                    ==> after.referring[to].contains(eid))
                &&& gadgets[target].binding_cid is None ==> after.by_gid[target].contains((eid, ri as usize))
            })
            &&& found is Unresolved ==> (blocking_port(
                gadgets,
                check_model_slots(slots),
                owner_gid,
                ri,
                slots.len(),
            ) matches Some(port) ==> after.by_port[(port.gid, port.port)].contains(
                PendingReference { eid, ri: ri as usize, owner_gid, slots },
            ))
        }),
    decreases n,
{
    let r = PendingReference { eid, ri: (n - 1) as usize, owner_gid, slots };
    let before = state.slots_registered(gadgets, eid, owner_gid, slots, cid, n - 1);
    let after = state.slots_registered(gadgets, eid, owner_gid, slots, cid, n);
    let found = referral_of(gadgets, check_model_slots(slots), owner_gid, ri);
    lemma_referring_domain(state, gadgets, eid, owner_gid, slots, cid, n - 1);
    lemma_referring_domain(state, gadgets, eid, owner_gid, slots, cid, n);
    let target = match found {
        Referral::At(t) => t,
        _ => 0,
    };
    let to = gadgets[target].binding_cid->0;
    let port = blocking_port(gadgets, check_model_slots(slots), owner_gid, ri, slots.len())->0;
    let own = PendingReference { eid, ri: ri as usize, owner_gid, slots };
    if ri < n - 1 {
        law_registered_slot_is_looked_after(state, gadgets, eid, owner_gid, slots, cid, n - 1, ri);
        lemma_settled_grows(
            before,
            gadgets,
            r,
            Some(cid),
            target,
            (eid, ri as usize),
            (port.gid, port.port),
            own,
            to,
            eid,
        );
    } else {
        assert(check_model_slots(slots).len() == slots.len());
        assert(r == own);
        match found {
            Referral::At(_) => {
                if target != owner_gid && gadgets.contains_key(target) {
                    if gadgets[target].binding_cid is Some {
                        if state.referring.contains_key(to) {
                            let list = after.referring[to];
                            assert(list[list.len() - 1] == eid);
                        }
                    } else {
                        let list = after.by_gid[target];
                        assert(list[list.len() - 1] == (eid, ri as usize));
                    }
                }
            },
            Referral::Unresolved => {
                if blocking_port(gadgets, check_model_slots(slots), owner_gid, ri, slots.len()) is Some {
                    let list = after.by_port[(port.gid, port.port)];
                    assert(list[list.len() - 1] == own);
                }
            },
            _ => {},
        }
    }
}

proof fn lemma_referring_domain(
    state: ReferralState,
    gadgets: Map<u64, Gadget>,
    eid: u64,
    owner_gid: u64,
    slots: Seq<Option<RemoteCheckModel>>,
    cid: u64,
    n: int,
)
    ensures
        state.slots_registered(gadgets, eid, owner_gid, slots, cid, n).referring.dom() == state.referring.dom(),
    decreases n,
{
    if n > 0 {
        lemma_referring_domain(state, gadgets, eid, owner_gid, slots, cid, n - 1);
        let before = state.slots_registered(gadgets, eid, owner_gid, slots, cid, n - 1);
        let r = PendingReference { eid, ri: (n - 1) as usize, owner_gid, slots };
        lemma_settled_grows(before, gadgets, r, Some(cid), 0, (0, 0), (0, 0), r, 0, 0);
    }
}

} // verus!
