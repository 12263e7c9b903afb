//! Reuse of check model types and error model types: two types that say the same share
//! one number.
use crate::bin::{
    checks_view, errors_view, Check, CheckModelType, Error, ErrorModelType, RemoteCheck, RemoteMeasurement,
};
use crate::collections::WordMap;
use crate::encode::{
    check_model_type_words, error_model_type_words, hash_check_model_type_structural, hash_error_model_type_structural,
    law_check_model_words_are_faithful, law_error_model_words_are_faithful,
};
use vstd::prelude::*;
use vstd::std_specs::cmp::PartialEqSpecImpl;

verus! {

// ---------------------------------------------------------------------------
// Equality
// ---------------------------------------------------------------------------

/// Whether two lists of numbers are equal.
fn numbers_eq(a: &Vec<u64>, b: &Vec<u64>) -> (yes: bool)
    ensures
        yes == (a@ == b@),
{
    if a.len() != b.len() {
        return false;
    }
    let mut i: usize = 0;
    while i < a.len()
        invariant
            i <= a@.len(),
            a@.len() == b@.len(),
            forall|k: int| 0 <= k < i ==> a@[k] == b@[k],
        decreases a@.len() - i,
    {
        if a[i] != b[i] {
            return false;
        }
        i += 1;
    }
    assert(a@ =~= b@);
    true
}

/// Whether two lists of measurements are equal.
fn measurements_eq(a: &Vec<RemoteMeasurement>, b: &Vec<RemoteMeasurement>) -> (yes: bool)
    ensures
        yes == (a@ == b@),
{
    if a.len() != b.len() {
        return false;
    }
    let mut i: usize = 0;
    while i < a.len()
        invariant
            i <= a@.len(),
            a@.len() == b@.len(),
            forall|k: int| 0 <= k < i ==> a@[k] == b@[k],
        decreases a@.len() - i,
    {
        if a[i] != b[i] {
            return false;
        }
        i += 1;
    }
    assert(a@ =~= b@);
    true
}

/// Whether two lists of checks of mechanisms are equal.
fn references_eq(a: &Vec<RemoteCheck>, b: &Vec<RemoteCheck>) -> (yes: bool)
    ensures
        yes == (a@ == b@),
{
    if a.len() != b.len() {
        return false;
    }
    let mut i: usize = 0;
    while i < a.len()
        invariant
            i <= a@.len(),
            a@.len() == b@.len(),
            forall|k: int| 0 <= k < i ==> a@[k] == b@[k],
        decreases a@.len() - i,
    {
        if a[i] != b[i] {
            return false;
        }
        i += 1;
    }
    assert(a@ =~= b@);
    true
}

/// Whether two checks are equal.
pub fn checks_eq(a: &Check, b: &Check) -> (yes: bool)
    ensures
        yes == (a@ == b@),
{
    let yes = measurements_eq(&a.measurements, &b.measurements) && a.naturally_flipped == b.naturally_flipped;
    assert(yes ==> a@ =~= b@);
    yes
}

/// Whether two mechanisms are equal, probabilities compared by their bits.
pub fn errors_eq(a: &Error, b: &Error) -> (yes: bool)
    ensures
        yes == (a@ == b@),
{
    let yes = references_eq(&a.checks, &b.checks) && numbers_eq(&a.residual, &b.residual) && numbers_eq(
        &a.readout_flips,
        &b.readout_flips,
    ) && a.probability == b.probability;
    assert(yes ==> a@ =~= b@);
    yes
}

/// A check model type, told apart by its gadget type and its checks only.
#[derive(Debug)]
pub struct CheckModelTypeKey(pub CheckModelType);

impl PartialEq for CheckModelTypeKey {
    fn eq(&self, other: &Self) -> (yes: bool) {
        if self.0.gtype != other.0.gtype || self.0.checks.len() != other.0.checks.len() {
            assert(checks_view(self.0.checks@).len() == self.0.checks@.len());
            assert(checks_view(other.0.checks@).len() == other.0.checks@.len());
            return false;
        }
        let ghost (a, b) = (checks_view(self.0.checks@), checks_view(other.0.checks@));
        let mut i: usize = 0;
        while i < self.0.checks.len()
            invariant
                i <= self.0.checks@.len(),
                self.0.gtype == other.0.gtype,
                self.0.checks@.len() == other.0.checks@.len(),
                a == checks_view(self.0.checks@),
                b == checks_view(other.0.checks@),
                forall|k: int| 0 <= k < i ==> a[k] == b[k],
            decreases self.0.checks@.len() - i,
        {
            assert(a[i as int] == self.0.checks@[i as int]@ && b[i as int] == other.0.checks@[i as int]@);
            if !checks_eq(&self.0.checks[i], &other.0.checks[i]) {
                return false;
            }
            i += 1;
        }
        assert(a =~= b);
        true
    }
}

impl PartialEqSpecImpl for CheckModelTypeKey {
    open spec fn obeys_eq_spec() -> bool {
        true
    }

    open spec fn eq_spec(&self, other: &Self) -> bool {
        self.0.gtype == other.0.gtype && checks_view(self.0.checks@) == checks_view(other.0.checks@)
    }
}

/// An error model type, told apart by its check model type and its mechanisms only.
#[derive(Debug)]
pub struct ErrorModelTypeKey(pub ErrorModelType);

impl PartialEq for ErrorModelTypeKey {
    fn eq(&self, other: &Self) -> (yes: bool) {
        if self.0.ctype != other.0.ctype || self.0.errors.len() != other.0.errors.len() {
            assert(errors_view(self.0.errors@).len() == self.0.errors@.len());
            assert(errors_view(other.0.errors@).len() == other.0.errors@.len());
            return false;
        }
        let ghost (a, b) = (errors_view(self.0.errors@), errors_view(other.0.errors@));
        let mut i: usize = 0;
        while i < self.0.errors.len()
            invariant
                i <= self.0.errors@.len(),
                self.0.ctype == other.0.ctype,
                self.0.errors@.len() == other.0.errors@.len(),
                a == errors_view(self.0.errors@),
                b == errors_view(other.0.errors@),
                forall|k: int| 0 <= k < i ==> a[k] == b[k],
            decreases self.0.errors@.len() - i,
        {
            assert(a[i as int] == self.0.errors@[i as int]@ && b[i as int] == other.0.errors@[i as int]@);
            if !errors_eq(&self.0.errors[i], &other.0.errors[i]) {
                return false;
            }
            i += 1;
        }
        assert(a =~= b);
        true
    }
}

impl PartialEqSpecImpl for ErrorModelTypeKey {
    open spec fn obeys_eq_spec() -> bool {
        true
    }

    open spec fn eq_spec(&self, other: &Self) -> bool {
        self.0.ctype == other.0.ctype && errors_view(self.0.errors@) == errors_view(other.0.errors@)
    }
}

// ---------------------------------------------------------------------------
// The cache
// ---------------------------------------------------------------------------

/// The words that a check model type is cached under.
pub open spec fn check_key(t: CheckModelType) -> Seq<u64> {
    check_model_type_words(t.gtype, checks_view(t.checks@))
}

/// The words that an error model type is cached under.
pub open spec fn error_key(t: ErrorModelType) -> Seq<u64> {
    error_model_type_words(t.ctype, errors_view(t.errors@))
}

/// The numbers of the types that were loaded, by what the types say.
pub struct TypeCache {
    pub check_model_types: WordMap,
    pub error_model_types: WordMap,
}

impl TypeCache {
    /// An empty cache.
    pub fn new() -> (cache: TypeCache)
        ensures
            cache.check_model_types@ == Map::<Seq<u64>, u64>::empty(),
            cache.error_model_types@ == Map::<Seq<u64>, u64>::empty(),
    {
        TypeCache { check_model_types: WordMap::new(), error_model_types: WordMap::new() }
    }

    /// The number of a check model type that says the same.
    pub fn get_check_model_type(&self, check_model_type: &CheckModelType) -> (ctype: Option<u64>)
        ensures
            ctype == self.check_model_types@.get(check_key(*check_model_type)),
    {
        let mut words: Vec<u64> = Vec::new();
        hash_check_model_type_structural(check_model_type, &mut words);
        assert(words@ =~= check_key(*check_model_type));
        self.check_model_types.get(&words)
    }

    /// Remembers the number of a check model type.
    pub fn insert_check_model_type(&mut self, check_model_type: &CheckModelType, ctype: u64)
        ensures
            final(self).check_model_types@ == old(self).check_model_types@.insert(check_key(*check_model_type), ctype),
            final(self).error_model_types == old(self).error_model_types,
    {
        let mut words: Vec<u64> = Vec::new();
        hash_check_model_type_structural(check_model_type, &mut words);
        assert(words@ =~= check_key(*check_model_type));
        self.check_model_types.insert(words, ctype);
    }

    /// The number of an error model type that says the same.
    pub fn get_error_model_type(&self, error_model_type: &ErrorModelType) -> (etype: Option<u64>)
        ensures
            etype == self.error_model_types@.get(error_key(*error_model_type)),
    {
        let mut words: Vec<u64> = Vec::new();
        hash_error_model_type_structural(error_model_type, &mut words);
        assert(words@ =~= error_key(*error_model_type));
        self.error_model_types.get(&words)
    }

    /// Remembers the number of an error model type.
    pub fn insert_error_model_type(&mut self, error_model_type: &ErrorModelType, etype: u64)
        ensures
            final(self).error_model_types@ == old(self).error_model_types@.insert(error_key(*error_model_type), etype),
            final(self).check_model_types == old(self).check_model_types,
    {
        let mut words: Vec<u64> = Vec::new();
        hash_error_model_type_structural(error_model_type, &mut words);
        assert(words@ =~= error_key(*error_model_type));
        self.error_model_types.insert(words, etype);
    }

    /// Forgets everything.
    pub fn clear(&mut self)
        ensures
            final(self).check_model_types@ == Map::<Seq<u64>, u64>::empty(),
            final(self).error_model_types@ == Map::<Seq<u64>, u64>::empty(),
    {
        self.check_model_types = WordMap::new();
        self.error_model_types = WordMap::new();
    }
}

/// After a check model type was remembered, the types that say the same are found
/// under its number, and all others as before.
pub proof fn law_cached_check_model_type_is_found(before: Map<Seq<u64>, u64>, a: CheckModelType, ctype: u64, b: CheckModelType)
    ensures
        before.insert(check_key(a), ctype).get(check_key(b)) == (if a.gtype == b.gtype && checks_view(a.checks@) == checks_view(
            b.checks@,
        ) {
            Some(ctype)
        } else {
            before.get(check_key(b))
        }),
{
    law_check_model_words_are_faithful(a, b);
}

/// After an error model type was remembered, the types that say the same are found
/// under its number, and all others as before.
pub proof fn law_cached_error_model_type_is_found(before: Map<Seq<u64>, u64>, a: ErrorModelType, etype: u64, b: ErrorModelType)
    ensures
        before.insert(error_key(a), etype).get(error_key(b)) == (if a.ctype == b.ctype && errors_view(a.errors@) == errors_view(
            b.errors@,
        ) {
            Some(etype)
        } else {
            before.get(error_key(b))
        }),
{
    law_error_model_words_are_faithful(a, b);
}

} // verus!
