//! The types that a program is made of, by id.
use crate::bin::{CheckModelType, ErrorModelType, GadgetType, Library, PortType};
use crate::registry::Registry;
use crate::status::{decimal, Status, StatusCode};
use vstd::prelude::*;

verus! {

/// A type that is found by a number of its own.
pub trait Typed {
    /// The number.
    spec fn key(&self) -> u64;

    /// The number.
    fn type_id(&self) -> (id: u64)
        ensures
            id == self.key(),
    ;
}

impl Typed for PortType {
    open spec fn key(&self) -> u64 {
        self.ptype
    }

    fn type_id(&self) -> (id: u64) {
        self.ptype
    }
}

impl Typed for GadgetType {
    open spec fn key(&self) -> u64 {
        self.gtype
    }

    fn type_id(&self) -> (id: u64) {
        self.gtype
    }
}

impl Typed for CheckModelType {
    open spec fn key(&self) -> u64 {
        self.ctype
    }

    fn type_id(&self) -> (id: u64) {
        self.ctype
    }
}

impl Typed for ErrorModelType {
    open spec fn key(&self) -> u64 {
        self.etype
    }

    fn type_id(&self) -> (id: u64) {
        self.etype
    }
}

/// A table with more types.
pub open spec fn with_types<T: Typed>(table: Map<u64, T>, items: Seq<T>) -> Map<u64, T>
    decreases items.len(),
{
    if items.len() == 0 {
        table
    } else {
        with_types(table, items.drop_last()).insert(items.last().key(), items.last())
    }
}

/// The number of item `i` is taken, by the table or by an earlier item.
pub open spec fn clashes<T: Typed>(table: Map<u64, T>, items: Seq<T>, i: int) -> bool {
    with_types(table, items.take(i)).contains_key(items[i].key())
}

/// What loading `items` makes of a table. With a clash, the types before the first
/// item that clashes stay loaded.
pub open spec fn loads<T: Typed>(before: Map<u64, T>, items: Seq<T>, after: Map<u64, T>, clash: Option<u64>) -> bool {
    match clash {
        None => {
            &&& after == with_types(before, items)
            &&& forall|i: int| 0 <= i < items.len() ==> !#[trigger] clashes(before, items, i)
        },
        Some(id) => exists|k: int|
            {
                &&& 0 <= k < items.len()
                &&& #[trigger] clashes(before, items, k)
                &&& forall|i: int| 0 <= i < k ==> !#[trigger] clashes(before, items, i)
                &&& id == items[k].key()
                &&& after == with_types(before, items.take(k))
            },
    }
}

/// Loads types into a table, up to the first whose number is taken.
pub fn load_types<T: Typed>(table: &mut Registry<T>, items: Vec<T>) -> (clash: Option<u64>)
    requires
        old(table).wf(),
    ensures
        final(table).wf(),
        loads(old(table)@, items@, final(table)@, clash),
{
    let ghost all = items@;
    let ghost before = table@;
    assert(all.take(0) =~= Seq::<T>::empty());
    for item in it: items
        invariant
            table.wf(),
            it.seq() == all,
            before == old(table)@,
            table@ == with_types(before, all.take(it.index())),
            forall|i: int| 0 <= i < it.index() ==> !#[trigger] clashes(before, all, i),
    {
        let ghost n = it.index();
        assert(item == all[n]);
        let id: u64 = item.type_id();
        if table.contains_key(id) {
            assert(clashes(before, all, n));
            return Some(id);
        }
        assert(!clashes(before, all, n));
        table.insert(id, item);
        assert(all.take(n + 1).drop_last() =~= all.take(n));
    }
    assert(all.take(all.len() as int) =~= all);
    None
}

/// The types that a program is made of.
pub struct Types {
    pub port_types: Registry<PortType>,
    pub gadget_types: Registry<GadgetType>,
    pub check_model_types: Registry<CheckModelType>,
    pub error_model_types: Registry<ErrorModelType>,
}

/// The value of [`Types`].
#[verifier::ext_equal]
pub struct TypesView {
    pub port_types: Map<u64, PortType>,
    pub gadget_types: Map<u64, GadgetType>,
    pub check_model_types: Map<u64, CheckModelType>,
    pub error_model_types: Map<u64, ErrorModelType>,
}

/// The first table whose numbers clash, and the number.
pub enum TypeClash {
    Port(u64),
    Gadget(u64),
    CheckModel(u64),
    ErrorModel(u64),
}

/// What loading a library makes of the tables: the four lists are loaded in turn, up
/// to the first clash.
pub open spec fn loads_library(before: TypesView, library: Library, after: TypesView, clash: Option<TypeClash>) -> bool {
    match clash {
        Some(TypeClash::Port(id)) => {
            &&& loads(before.port_types, library.port_types@, after.port_types, Some(id))
            &&& after.gadget_types == before.gadget_types
            &&& after.check_model_types == before.check_model_types
            &&& after.error_model_types == before.error_model_types
        },
        Some(TypeClash::Gadget(id)) => {
            &&& loads(before.port_types, library.port_types@, after.port_types, None)
            &&& loads(before.gadget_types, library.gadget_types@, after.gadget_types, Some(id))
            &&& after.check_model_types == before.check_model_types
            &&& after.error_model_types == before.error_model_types
        },
        Some(TypeClash::CheckModel(id)) => {
            &&& loads(before.port_types, library.port_types@, after.port_types, None)
            &&& loads(before.gadget_types, library.gadget_types@, after.gadget_types, None)
            &&& loads(before.check_model_types, library.check_model_types@, after.check_model_types, Some(id))
            &&& after.error_model_types == before.error_model_types
        },
        Some(TypeClash::ErrorModel(id)) => {
            &&& loads(before.port_types, library.port_types@, after.port_types, None)
            &&& loads(before.gadget_types, library.gadget_types@, after.gadget_types, None)
            &&& loads(before.check_model_types, library.check_model_types@, after.check_model_types, None)
            &&& loads(before.error_model_types, library.error_model_types@, after.error_model_types, Some(id))
        },
        None => {
            &&& loads(before.port_types, library.port_types@, after.port_types, None)
            &&& loads(before.gadget_types, library.gadget_types@, after.gadget_types, None)
            &&& loads(before.check_model_types, library.check_model_types@, after.check_model_types, None)
            &&& loads(before.error_model_types, library.error_model_types@, after.error_model_types, None)
        },
    }
}

/// The message for a clash.
pub open spec fn clash_message(clash: TypeClash) -> Seq<char> {
    match clash {
        TypeClash::Port(id) => "ptype="@ + decimal(id as nat),
        TypeClash::Gadget(id) => "gtype="@ + decimal(id as nat),
        TypeClash::CheckModel(id) => "ctype="@ + decimal(id as nat),
        TypeClash::ErrorModel(id) => "etype="@ + decimal(id as nat),
    }
}

/// What loading a library makes of the tables, and how it is answered.
pub open spec fn load_answered(before: TypesView, library: Library, after: TypesView, answer: Result<(), Status>) -> bool {
    match answer {
        Ok(_) => loads_library(before, library, after, None),
        Err(status) => exists|clash: TypeClash| #[trigger]
            loads_library(before, library, after, Some(clash)) && status.is(
                StatusCode::AlreadyExists,
                clash_message(clash),
            ),
    }
}

impl Types {
    /// All four tables are in order.
    pub open spec fn wf(&self) -> bool {
        &&& self.port_types.wf()
        &&& self.gadget_types.wf()
        &&& self.check_model_types.wf()
        &&& self.error_model_types.wf()
    }

    /// The tables as maps.
    pub open spec fn view(&self) -> TypesView {
        TypesView {
            port_types: self.port_types@,
            gadget_types: self.gadget_types@,
            check_model_types: self.check_model_types@,
            error_model_types: self.error_model_types@,
        }
    }

    /// No types.
    pub open spec fn none() -> TypesView {
        TypesView {
            port_types: Map::empty(),
            gadget_types: Map::empty(),
            check_model_types: Map::empty(),
            error_model_types: Map::empty(),
        }
    }

    /// No types.
    pub fn new() -> (types: Types)
        ensures
            types.wf(),
            types@ == Types::none(),
    {
        Types {
            port_types: Registry::new(),
            gadget_types: Registry::new(),
            check_model_types: Registry::new(),
            error_model_types: Registry::new(),
        }
    }

    /// Loads the types of a library.
    pub fn load_library(&mut self, library: Library) -> (answer: Result<(), Status>)
        requires
            old(self).wf(),
        ensures
            final(self).wf(),
            load_answered(old(self)@, library, final(self)@, answer),
    {
        let ghost before = self@;
        let ghost whole = library;
        if let Some(id) = load_types(&mut self.port_types, library.port_types) {
            assert(loads_library(before, whole, self@, Some(TypeClash::Port(id))));
            return Err(Status::with_id(StatusCode::AlreadyExists, "ptype=", id));
        }
        if let Some(id) = load_types(&mut self.gadget_types, library.gadget_types) {
            assert(loads_library(before, whole, self@, Some(TypeClash::Gadget(id))));
            return Err(Status::with_id(StatusCode::AlreadyExists, "gtype=", id));
        }
        if let Some(id) = load_types(&mut self.check_model_types, library.check_model_types) {
            assert(loads_library(before, whole, self@, Some(TypeClash::CheckModel(id))));
            return Err(Status::with_id(StatusCode::AlreadyExists, "ctype=", id));
        }
        if let Some(id) = load_types(&mut self.error_model_types, library.error_model_types) {
            assert(loads_library(before, whole, self@, Some(TypeClash::ErrorModel(id))));
            return Err(Status::with_id(StatusCode::AlreadyExists, "etype=", id));
        }
        Ok(())
    }
}

/// Loading never changes or forgets a type that was there.
pub proof fn law_loading_keeps_types<T: Typed>(before: Map<u64, T>, items: Seq<T>, after: Map<u64, T>, clash: Option<u64>, id: u64)
    requires
        loads(before, items, after, clash),
        before.contains_key(id),
    ensures
        after.contains_key(id),
        after[id] == before[id],
{
    match clash {
        None => {
            lemma_with_types_keeps(before, items, id);
        },
        Some(_) => {
            let k = choose|k: int|
                {
                    &&& 0 <= k < items.len()
                    &&& #[trigger] clashes(before, items, k)
                    &&& forall|i: int| 0 <= i < k ==> !#[trigger] clashes(before, items, i)
                    &&& after == with_types(before, items.take(k))
                };
            assert forall|i: int| 0 <= i < items.take(k).len() implies !#[trigger] clashes(before, items.take(k), i) by {
                assert(items.take(k).take(i) =~= items.take(i));
                assert(!clashes(before, items, i));
            }
            lemma_with_types_keeps(before, items.take(k), id);
        },
    }
}

/// Loading a library keeps the gadget types that were there.
pub proof fn lemma_loading_keeps_gadget_types(
    before: TypesView,
    library: Library,
    after: TypesView,
    answer: Result<(), Status>,
    gtype: u64,
)
    requires
        load_answered(before, library, after, answer),
        before.gadget_types.contains_key(gtype),
    ensures
        after.gadget_types.contains_key(gtype),
        after.gadget_types[gtype] == before.gadget_types[gtype],
{
    let clash = match answer {
        Ok(_) => None,
        Err(status) => Some(
            choose|clash: TypeClash| #[trigger]
                loads_library(before, library, after, Some(clash)) && status.is(
                    StatusCode::AlreadyExists,
                    clash_message(clash),
                ),
        ),
    };
    assert(loads_library(before, library, after, clash));
    match clash {
        Some(TypeClash::Port(_)) => {},
        Some(TypeClash::Gadget(id)) => {
            law_loading_keeps_types(before.gadget_types, library.gadget_types@, after.gadget_types, Some(id), gtype);
        },
        _ => {
            law_loading_keeps_types(before.gadget_types, library.gadget_types@, after.gadget_types, None, gtype);
        },
    }
}

/// Items without a clash leave what was there.
proof fn lemma_with_types_keeps<T: Typed>(table: Map<u64, T>, items: Seq<T>, id: u64)
    requires
        table.contains_key(id),
        forall|i: int| 0 <= i < items.len() ==> !#[trigger] clashes(table, items, i),
    ensures
        with_types(table, items).contains_key(id),
        with_types(table, items)[id] == table[id],
    decreases items.len(),
{
    if items.len() > 0 {
        let last = items.len() - 1;
        assert(items.drop_last() =~= items.take(last));
        assert forall|i: int| 0 <= i < last implies !#[trigger] clashes(table, items.drop_last(), i) by {
            assert(items.drop_last().take(i) =~= items.take(i));
            assert(!clashes(table, items, i));
        }
        lemma_with_types_keeps(table, items.drop_last(), id);
        assert(!clashes(table, items, last));
    }
}

proof fn lemma_with_types_members<T: Typed>(table: Map<u64, T>, items: Seq<T>, id: u64)
    ensures
        with_types(table, items).contains_key(id) <==> table.contains_key(id) || exists|j: int|
            0 <= j < items.len() && (#[trigger] items[j]).key() == id,
    decreases items.len(),
{
    if items.len() > 0 {
        let rest = items.drop_last();
        lemma_with_types_members(table, rest, id);
        if exists|j: int| 0 <= j < items.len() && (#[trigger] items[j]).key() == id {
            let j = choose|j: int| 0 <= j < items.len() && (#[trigger] items[j]).key() == id;
            if j < rest.len() {
                assert(rest[j].key() == id);
            }
        }
        if exists|j: int| 0 <= j < rest.len() && (#[trigger] rest[j]).key() == id {
            let j = choose|j: int| 0 <= j < rest.len() && (#[trigger] rest[j]).key() == id;
            assert(items[j].key() == id);
        }
        assert(items[items.len() - 1] == items.last());
    }
}

/// A list of types that was loaded is there, each type under its number; no number was
/// taken before, and none is listed twice.
pub proof fn law_loaded_types_are_found<T: Typed>(before: Map<u64, T>, items: Seq<T>, after: Map<u64, T>, i: int)
    requires
        loads(before, items, after, None),
        0 <= i < items.len(),
    ensures
        after.contains_key(items[i].key()),
        after[items[i].key()] == items[i],
        !before.contains_key(items[i].key()),
        forall|j: int| 0 <= j < i ==> (#[trigger] items[j]).key() != items[i].key(),
    decreases items.len(),
{
    let n = items.len() - 1;
    assert(!clashes(before, items, i));
    lemma_with_types_members(before, items.take(i), items[i].key());
    assert forall|j: int| 0 <= j < i implies (#[trigger] items[j]).key() != items[i].key() by {
        assert(items.take(i)[j] == items[j]);
    }
    let rest = items.drop_last();
    if i < n {
        assert forall|j: int| 0 <= j < rest.len() implies !#[trigger] clashes(before, rest, j) by {
            assert(!clashes(before, items, j));
            assert(rest.take(j) =~= items.take(j));
        }
        law_loaded_types_are_found(before, rest, with_types(before, rest), i);
        assert(!clashes(before, items, n));
        assert(items.take(n) =~= rest);
        assert(rest[i] == items[i]);
    }
}

/// Loading stops at the first type whose number is taken, by an earlier type or before;
/// the types before it are loaded.
pub proof fn law_loading_stops_at_a_taken_number<T: Typed>(before: Map<u64, T>, items: Seq<T>, after: Map<u64, T>, id: u64) -> (k:
    int)
    requires
        loads(before, items, after, Some(id)),
    ensures
        0 <= k < items.len(),
        items[k].key() == id,
        before.contains_key(id) || exists|j: int| 0 <= j < k && (#[trigger] items[j]).key() == id,
        loads(before, items.take(k), after, None),
{
    let k = choose|k: int|
        {
            &&& 0 <= k < items.len()
            &&& #[trigger] clashes(before, items, k)
            &&& forall|i: int| 0 <= i < k ==> !#[trigger] clashes(before, items, i)
            &&& id == items[k].key()
            &&& after == with_types(before, items.take(k))
        };
    lemma_with_types_members(before, items.take(k), id);
    if !before.contains_key(id) {
        let j = choose|j: int| 0 <= j < items.take(k).len() && (#[trigger] items.take(k)[j]).key() == id;
        assert(items[j].key() == id);
    }
    assert forall|i: int| 0 <= i < items.take(k).len() implies !#[trigger] clashes(before, items.take(k), i) by {
        assert(!clashes(before, items, i));
        assert(items.take(k).take(i) =~= items.take(i));
    }
    k
}

/// Types are kept under their own numbers.
pub proof fn law_types_are_kept_under_their_numbers(
    port: PortType,
    gadget: GadgetType,
    check_model: CheckModelType,
    error_model: ErrorModelType,
)
    ensures
        port.key() == port.ptype,
        gadget.key() == gadget.gtype,
        check_model.key() == check_model.ctype,
        error_model.key() == error_model.etype,
{
}

/// A library that was loaded is there: each of its types under its number, of each kind.
pub proof fn law_loaded_library_is_there(before: TypesView, library: Library, after: TypesView, answer: Result<(), Status>, i: int)
    requires
        load_answered(before, library, after, answer),
        answer is Ok,
        0 <= i,
    ensures
        i < library.port_types@.len() ==> after.port_types.contains_key(library.port_types@[i].ptype)
            && after.port_types[library.port_types@[i].ptype] == library.port_types@[i],
        i < library.gadget_types@.len() ==> after.gadget_types.contains_key(library.gadget_types@[i].gtype)
            && after.gadget_types[library.gadget_types@[i].gtype] == library.gadget_types@[i],
        i < library.check_model_types@.len() ==> after.check_model_types.contains_key(library.check_model_types@[i].ctype)
            && after.check_model_types[library.check_model_types@[i].ctype] == library.check_model_types@[i],
        i < library.error_model_types@.len() ==> after.error_model_types.contains_key(library.error_model_types@[i].etype)
            && after.error_model_types[library.error_model_types@[i].etype] == library.error_model_types@[i],
{
    if i < library.port_types@.len() {
        law_loaded_types_are_found(before.port_types, library.port_types@, after.port_types, i);
    }
    if i < library.gadget_types@.len() {
        law_loaded_types_are_found(before.gadget_types, library.gadget_types@, after.gadget_types, i);
    }
    if i < library.check_model_types@.len() {
        law_loaded_types_are_found(before.check_model_types, library.check_model_types@, after.check_model_types, i);
    }
    if i < library.error_model_types@.len() {
        law_loaded_types_are_found(before.error_model_types, library.error_model_types@, after.error_model_types, i);
    }
}

} // verus!
