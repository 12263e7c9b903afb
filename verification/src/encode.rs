//! Structural keys: checks and mechanisms written out as words, so that two of them
//! have the same words exactly if they are the same.
use crate::bin::{checks_view, errors_view, Check, CheckModelType, CheckSpec, Error, ErrorModelType, ErrorSpec};
use crate::bin::{RemoteCheck, RemoteMeasurement};
use vstd::prelude::*;

verus! {

// ---------------------------------------------------------------------------
// Lists
// ---------------------------------------------------------------------------

/// The words of a list of items, one after the other.
pub open spec fn flat<T>(list: Seq<T>, words: spec_fn(T) -> Seq<u64>) -> Seq<u64>
    decreases list.len(),
{
    if list.len() == 0 {
        Seq::empty()
    } else {
        words(list[0]) + flat(list.drop_first(), words)
    }
}

/// The words of a list: how many items there are, then the items.
pub open spec fn counted<T>(list: Seq<T>, words: spec_fn(T) -> Seq<u64>) -> Seq<u64> {
    seq![list.len() as u64] + flat(list, words)
}

/// The words of an item show where it ends.
pub open spec fn self_delimiting<T>(words: spec_fn(T) -> Seq<u64>, ok: spec_fn(T) -> bool) -> bool {
    forall|a: T, b: T, s: Seq<u64>, t: Seq<u64>|
        ok(a) && ok(b) && #[trigger] (words(a) + s) == #[trigger] (words(b) + t) ==> a == b && s == t
}

/// Every item of a list is fine.
pub open spec fn all_ok<T>(list: Seq<T>, ok: spec_fn(T) -> bool) -> bool {
    forall|i: int| 0 <= i < list.len() ==> ok(#[trigger] list[i])
}

/// One more item adds its words at the end.
pub proof fn lemma_flat_push<T>(list: Seq<T>, item: T, words: spec_fn(T) -> Seq<u64>)
    ensures
        flat(list.push(item), words) == flat(list, words) + words(item),
    decreases list.len(),
{
    if list.len() == 0 {
        let rest = list.push(item).drop_first();
        assert(rest =~= Seq::<T>::empty());
        assert(flat(rest, words) =~= Seq::<u64>::empty());
        assert(list.push(item)[0] == item);
        assert(flat(list.push(item), words) =~= words(item));
    } else {
        assert(list.push(item).drop_first() =~= list.drop_first().push(item));
        lemma_flat_push(list.drop_first(), item, words);
        assert(flat(list.push(item), words) =~= flat(list, words) + words(item));
    }
}

/// Lists of the same length with the same words are the same.
pub proof fn lemma_flat_delimits<T>(
    words: spec_fn(T) -> Seq<u64>,
    ok: spec_fn(T) -> bool,
    a: Seq<T>,
    b: Seq<T>,
    s: Seq<u64>,
    t: Seq<u64>,
)
    requires
        self_delimiting(words, ok),
        a.len() == b.len(),
        all_ok(a, ok),
        all_ok(b, ok),
        flat(a, words) + s == flat(b, words) + t,
    ensures
        a == b,
        s == t,
    decreases a.len(),
{
    if a.len() == 0 {
        assert(flat(a, words) + s =~= s);
        assert(flat(b, words) + t =~= t);
        assert(a =~= b);
    } else {
        let (ra, rb) = (a.drop_first(), b.drop_first());
        assert(flat(a, words) + s =~= words(a[0]) + (flat(ra, words) + s));
        assert(flat(b, words) + t =~= words(b[0]) + (flat(rb, words) + t));
        assert(ok(a[0]) && ok(b[0]));
        assert(a[0] == b[0] && flat(ra, words) + s == flat(rb, words) + t);
        assert forall|i: int| 0 <= i < ra.len() implies ok(#[trigger] ra[i]) by {
            assert(ra[i] == a[i + 1]);
        }
        assert forall|i: int| 0 <= i < rb.len() implies ok(#[trigger] rb[i]) by {
            assert(rb[i] == b[i + 1]);
        }
        lemma_flat_delimits(words, ok, ra, rb, s, t);
        assert(a =~= seq![a[0]] + ra);
        assert(b =~= seq![b[0]] + rb);
    }
}

/// Counted lists show where they end.
pub proof fn lemma_counted_delimits<T>(
    words: spec_fn(T) -> Seq<u64>,
    ok: spec_fn(T) -> bool,
    a: Seq<T>,
    b: Seq<T>,
    s: Seq<u64>,
    t: Seq<u64>,
)
    requires
        self_delimiting(words, ok),
        a.len() <= u64::MAX,
        b.len() <= u64::MAX,
        all_ok(a, ok),
        all_ok(b, ok),
        counted(a, words) + s == counted(b, words) + t,
    ensures
        a == b,
        s == t,
{
    let left = counted(a, words) + s;
    let right = counted(b, words) + t;
    assert(left[0] == a.len() as u64);
    assert(right[0] == b.len() as u64);
    assert(left.drop_first() =~= flat(a, words) + s);
    assert(right.drop_first() =~= flat(b, words) + t);
    lemma_flat_delimits(words, ok, a, b, s, t);
}

// ---------------------------------------------------------------------------
// Items
// ---------------------------------------------------------------------------

/// A number.
pub open spec fn number_words() -> spec_fn(u64) -> Seq<u64> {
    |x: u64| seq![x]
}

/// An optional number.
pub open spec fn optional_words(o: Option<u64>) -> Seq<u64> {
    match o {
        None => seq![0u64, 0u64],
        Some(x) => seq![1u64, x],
    }
}

/// A check of a mechanism.
pub open spec fn remote_check_words() -> spec_fn(RemoteCheck) -> Seq<u64> {
    |c: RemoteCheck| optional_words(c.remote_check_model) + seq![c.check_index]
}

/// A measurement of a check.
pub open spec fn measurement_words() -> spec_fn(RemoteMeasurement) -> Seq<u64> {
    |m: RemoteMeasurement| optional_words(m.remote_gadget) + seq![m.measurement_index]
}

/// Anything is fine.
pub open spec fn any<T>() -> spec_fn(T) -> bool {
    |x: T| true
}

/// A check.
pub open spec fn check_words() -> spec_fn(CheckSpec) -> Seq<u64> {
    |c: CheckSpec|
        counted(c.measurements, measurement_words()) + seq![
            if c.naturally_flipped {
                1u64
            } else {
                0u64
            },
        ]
}

/// A mechanism; its probability counts by its bits.
pub open spec fn error_words() -> spec_fn(ErrorSpec) -> Seq<u64> {
    |e: ErrorSpec|
        counted(e.checks, remote_check_words()) + counted(e.residual, number_words()) + counted(
            e.readout_flips,
            number_words(),
        ) + seq![e.probability.bits]
}

/// The lists of a check can be counted.
pub open spec fn check_fits() -> spec_fn(CheckSpec) -> bool {
    |c: CheckSpec| c.measurements.len() <= u64::MAX
}

/// The lists of a mechanism can be counted.
pub open spec fn error_fits() -> spec_fn(ErrorSpec) -> bool {
    |e: ErrorSpec| e.checks.len() <= u64::MAX && e.residual.len() <= u64::MAX && e.readout_flips.len() <= u64::MAX
}

/// Numbers show where they end.
pub proof fn lemma_numbers_delimit()
    ensures
        self_delimiting(number_words(), any::<u64>()),
{
    let w = number_words();
    assert forall|a: u64, b: u64, s: Seq<u64>, t: Seq<u64>| #[trigger] (w(a) + s) == #[trigger] (w(b) + t) implies a == b && s == t by {
        let (l, r) = (w(a) + s, w(b) + t);
        assert(l[0] == a && r[0] == b);
        assert(l.drop_first() =~= s);
        assert(r.drop_first() =~= t);
    }
}

/// Checks of mechanisms show where they end.
pub proof fn lemma_remote_checks_delimit()
    ensures
        self_delimiting(remote_check_words(), any::<RemoteCheck>()),
{
    let w = remote_check_words();
    assert forall|a: RemoteCheck, b: RemoteCheck, s: Seq<u64>, t: Seq<u64>| #[trigger] (w(a) + s) == #[trigger] (w(b) + t) implies a == b
        && s == t by {
        let (l, r) = (w(a) + s, w(b) + t);
        assert(l[0] == r[0] && l[1] == r[1] && l[2] == r[2]);
        assert(l[0] == optional_words(a.remote_check_model)[0] && l[1] == optional_words(a.remote_check_model)[1]);
        assert(r[0] == optional_words(b.remote_check_model)[0] && r[1] == optional_words(b.remote_check_model)[1]);
        assert(l[2] == a.check_index && r[2] == b.check_index);
        assert(l.skip(3) =~= s);
        assert(r.skip(3) =~= t);
    }
}

/// Measurements of checks show where they end.
pub proof fn lemma_measurements_delimit()
    ensures
        self_delimiting(measurement_words(), any::<RemoteMeasurement>()),
{
    let w = measurement_words();
    assert forall|a: RemoteMeasurement, b: RemoteMeasurement, s: Seq<u64>, t: Seq<u64>| #[trigger] (w(a) + s) == #[trigger] (w(b) + t) implies a
        == b && s == t by {
        let (l, r) = (w(a) + s, w(b) + t);
        assert(l[0] == r[0] && l[1] == r[1] && l[2] == r[2]);
        assert(l[0] == optional_words(a.remote_gadget)[0] && l[1] == optional_words(a.remote_gadget)[1]);
        assert(r[0] == optional_words(b.remote_gadget)[0] && r[1] == optional_words(b.remote_gadget)[1]);
        assert(l[2] == a.measurement_index && r[2] == b.measurement_index);
        assert(l.skip(3) =~= s);
        assert(r.skip(3) =~= t);
    }
}

/// Checks show where they end.
pub proof fn lemma_checks_delimit()
    ensures
        self_delimiting(check_words(), check_fits()),
{
    let w = check_words();
    let m = measurement_words();
    lemma_measurements_delimit();
    assert forall|a: CheckSpec, b: CheckSpec, s: Seq<u64>, t: Seq<u64>|
        check_fits()(a) && check_fits()(b) && #[trigger] (w(a) + s) == #[trigger] (w(b) + t) implies a == b && s == t by {
        let fa = seq![if a.naturally_flipped { 1u64 } else { 0u64 }];
        let fb = seq![if b.naturally_flipped { 1u64 } else { 0u64 }];
        assert(w(a) + s =~= counted(a.measurements, m) + (fa + s));
        assert(w(b) + t =~= counted(b.measurements, m) + (fb + t));
        lemma_counted_delimits(m, any::<RemoteMeasurement>(), a.measurements, b.measurements, fa + s, fb + t);
        assert((fa + s)[0] == (fb + t)[0]);
        assert((fa + s).drop_first() =~= s);
        assert((fb + t).drop_first() =~= t);
        assert(a =~= b);
    }
}

/// Mechanisms show where they end.
pub proof fn lemma_errors_delimit()
    ensures
        self_delimiting(error_words(), error_fits()),
{
    let w = error_words();
    let c = remote_check_words();
    let n = number_words();
    lemma_remote_checks_delimit();
    lemma_numbers_delimit();
    assert forall|a: ErrorSpec, b: ErrorSpec, s: Seq<u64>, t: Seq<u64>|
        error_fits()(a) && error_fits()(b) && #[trigger] (w(a) + s) == #[trigger] (w(b) + t) implies a == b && s == t by {
        let pa = seq![a.probability.bits] + s;
        let pb = seq![b.probability.bits] + t;
        let fa = counted(a.readout_flips, n) + pa;
        let fb = counted(b.readout_flips, n) + pb;
        let ra = counted(a.residual, n) + fa;
        let rb = counted(b.residual, n) + fb;
        assert(w(a) + s =~= counted(a.checks, c) + ra);
        assert(w(b) + t =~= counted(b.checks, c) + rb);
        lemma_counted_delimits(c, any::<RemoteCheck>(), a.checks, b.checks, ra, rb);
        lemma_counted_delimits(n, any::<u64>(), a.residual, b.residual, fa, fb);
        lemma_counted_delimits(n, any::<u64>(), a.readout_flips, b.readout_flips, pa, pb);
        assert(pa[0] == pb[0]);
        assert(pa.drop_first() =~= s);
        assert(pb.drop_first() =~= t);
        assert(a.probability == b.probability);
        assert(a =~= b);
    }
}

// ---------------------------------------------------------------------------
// Writing words
// ---------------------------------------------------------------------------

/// Appends an optional number.
pub fn push_optional(state: &mut Vec<u64>, o: Option<u64>)
    ensures
        final(state)@ == old(state)@ + optional_words(o),
{
    match o {
        None => {
            state.push(0);
            state.push(0);
        },
        Some(x) => {
            state.push(1);
            state.push(x);
        },
    }
    assert(state@ =~= old(state)@ + optional_words(o));
}

/// Appends a counted list of numbers.
pub fn push_numbers(state: &mut Vec<u64>, list: &Vec<u64>)
    ensures
        final(state)@ == old(state)@ + counted(list@, number_words()),
{
    let ghost start = state@;
    let ghost w = number_words();
    state.push(list.len() as u64);
    let mut i: usize = 0;
    assert(list@.take(0) =~= Seq::<u64>::empty());
    while i < list.len()
        invariant
            i <= list@.len(),
            w == number_words(),
            state@ =~= start + (seq![list@.len() as u64] + flat(list@.take(i as int), w)),
        decreases list@.len() - i,
    {
        state.push(list[i]);
        proof {
            assert(list@.take(i as int + 1) =~= list@.take(i as int).push(list@[i as int]));
            lemma_flat_push(list@.take(i as int), list@[i as int], w);
        }
        i += 1;
    }
    assert(list@.take(list@.len() as int) =~= list@);
}

/// Appends a counted list of checks of a mechanism.
fn push_remote_checks(state: &mut Vec<u64>, list: &Vec<RemoteCheck>)
    ensures
        final(state)@ == old(state)@ + counted(list@, remote_check_words()),
{
    let ghost start = state@;
    let ghost w = remote_check_words();
    state.push(list.len() as u64);
    let mut i: usize = 0;
    assert(list@.take(0) =~= Seq::<RemoteCheck>::empty());
    while i < list.len()
        invariant
            i <= list@.len(),
            w == remote_check_words(),
            state@ =~= start + (seq![list@.len() as u64] + flat(list@.take(i as int), w)),
        decreases list@.len() - i,
    {
        let ghost now = state@;
        push_optional(state, list[i].remote_check_model);
        state.push(list[i].check_index);
        proof {
            assert(state@ =~= now + w(list@[i as int]));
            assert(list@.take(i as int + 1) =~= list@.take(i as int).push(list@[i as int]));
            lemma_flat_push(list@.take(i as int), list@[i as int], w);
        }
        i += 1;
    }
    assert(list@.take(list@.len() as int) =~= list@);
}

/// Appends a counted list of measurements of a check.
fn push_measurements(state: &mut Vec<u64>, list: &Vec<RemoteMeasurement>)
    ensures
        final(state)@ == old(state)@ + counted(list@, measurement_words()),
{
    let ghost start = state@;
    let ghost w = measurement_words();
    state.push(list.len() as u64);
    let mut i: usize = 0;
    assert(list@.take(0) =~= Seq::<RemoteMeasurement>::empty());
    while i < list.len()
        invariant
            i <= list@.len(),
            w == measurement_words(),
            state@ =~= start + (seq![list@.len() as u64] + flat(list@.take(i as int), w)),
        decreases list@.len() - i,
    {
        let ghost now = state@;
        push_optional(state, list[i].remote_gadget);
        state.push(list[i].measurement_index);
        proof {
            assert(state@ =~= now + w(list@[i as int]));
            assert(list@.take(i as int + 1) =~= list@.take(i as int).push(list@[i as int]));
            lemma_flat_push(list@.take(i as int), list@[i as int], w);
        }
        i += 1;
    }
    assert(list@.take(list@.len() as int) =~= list@);
}

/// Appends the words of a check.
pub fn hash_check(check: &Check, state: &mut Vec<u64>)
    ensures
        final(state)@ == old(state)@ + check_words()(check@),
{
    push_measurements(state, &check.measurements);
    state.push(
        if check.naturally_flipped {
            1
        } else {
            0
        },
    );
    assert(state@ =~= old(state)@ + check_words()(check@));
}

/// Appends the words of a mechanism.
pub fn hash_error(error: &Error, state: &mut Vec<u64>)
    ensures
        final(state)@ == old(state)@ + error_words()(error@),
{
    push_remote_checks(state, &error.checks);
    push_numbers(state, &error.residual);
    push_numbers(state, &error.readout_flips);
    state.push(error.probability.bits);
    assert(state@ =~= old(state)@ + error_words()(error@));
}

/// The words of a check model type: the gadget type and the checks.
pub open spec fn check_model_type_words(gtype: u64, checks: Seq<CheckSpec>) -> Seq<u64> {
    seq![gtype] + counted(checks, check_words())
}

/// The words of an error model type: the check model type and the mechanisms.
pub open spec fn error_model_type_words(ctype: u64, errors: Seq<ErrorSpec>) -> Seq<u64> {
    seq![ctype] + counted(errors, error_words())
}

/// Appends the words of a check model type.
pub fn hash_check_model_type_structural(check_model_type: &CheckModelType, state: &mut Vec<u64>)
    ensures
        final(state)@ == old(state)@ + check_model_type_words(check_model_type.gtype, checks_view(check_model_type.checks@)),
{
    let ghost start = state@;
    let ghost w = check_words();
    let ghost all = checks_view(check_model_type.checks@);
    state.push(check_model_type.gtype);
    state.push(check_model_type.checks.len() as u64);
    let mut i: usize = 0;
    assert(all.take(0) =~= Seq::<CheckSpec>::empty());
    while i < check_model_type.checks.len()
        invariant
            i <= check_model_type.checks@.len(),
            w == check_words(),
            all == checks_view(check_model_type.checks@),
            state@ =~= start + (seq![check_model_type.gtype] + (seq![all.len() as u64] + flat(all.take(i as int), w))),
        decreases check_model_type.checks@.len() - i,
    {
        hash_check(&check_model_type.checks[i], state);
        proof {
            assert(all[i as int] == check_model_type.checks@[i as int]@);
            assert(all.take(i as int + 1) =~= all.take(i as int).push(all[i as int]));
            lemma_flat_push(all.take(i as int), all[i as int], w);
        }
        i += 1;
    }
    assert(all.take(all.len() as int) =~= all);
}

/// Appends the words of an error model type.
pub fn hash_error_model_type_structural(error_model_type: &ErrorModelType, state: &mut Vec<u64>)
    ensures
        final(state)@ == old(state)@ + error_model_type_words(error_model_type.ctype, errors_view(error_model_type.errors@)),
{
    let ghost start = state@;
    let ghost w = error_words();
    let ghost all = errors_view(error_model_type.errors@);
    state.push(error_model_type.ctype);
    state.push(error_model_type.errors.len() as u64);
    let mut i: usize = 0;
    assert(all.take(0) =~= Seq::<ErrorSpec>::empty());
    while i < error_model_type.errors.len()
        invariant
            i <= error_model_type.errors@.len(),
            w == error_words(),
            all == errors_view(error_model_type.errors@),
            state@ =~= start + (seq![error_model_type.ctype] + (seq![all.len() as u64] + flat(all.take(i as int), w))),
        decreases error_model_type.errors@.len() - i,
    {
        hash_error(&error_model_type.errors[i], state);
        proof {
            assert(all[i as int] == error_model_type.errors@[i as int]@);
            assert(all.take(i as int + 1) =~= all.take(i as int).push(all[i as int]));
            lemma_flat_push(all.take(i as int), all[i as int], w);
        }
        i += 1;
    }
    assert(all.take(all.len() as int) =~= all);
}

/// The lists of a vector of mechanisms can be counted.
pub proof fn lemma_errors_fit(errors: Seq<Error>)
    ensures
        all_ok(errors_view(errors), error_fits()),
{
    assert forall|i: int| 0 <= i < errors_view(errors).len() implies error_fits()(#[trigger] errors_view(errors)[i]) by {
        let e = errors[i];
        assert(e.checks.len() == e.checks@.len());
        assert(e.residual.len() == e.residual@.len());
        assert(e.readout_flips.len() == e.readout_flips@.len());
    }
}

/// The lists of a vector of checks can be counted.
pub proof fn lemma_checks_fit(checks: Seq<Check>)
    ensures
        all_ok(checks_view(checks), check_fits()),
{
    assert forall|i: int| 0 <= i < checks_view(checks).len() implies check_fits()(#[trigger] checks_view(checks)[i]) by {
        let c = checks[i];
        assert(c.measurements.len() == c.measurements@.len());
    }
}

/// Two check model types have the same words exactly if they have the same gadget type
/// and the same checks.
pub proof fn law_check_model_words_are_faithful(a: CheckModelType, b: CheckModelType)
    ensures
        check_model_type_words(a.gtype, checks_view(a.checks@)) == check_model_type_words(b.gtype, checks_view(b.checks@)) <==> (
        a.gtype == b.gtype && checks_view(a.checks@) == checks_view(b.checks@)),
{
    let (ca, cb) = (checks_view(a.checks@), checks_view(b.checks@));
    let (wa, wb) = (check_model_type_words(a.gtype, ca), check_model_type_words(b.gtype, cb));
    if wa == wb {
        let none = Seq::<u64>::empty();
        lemma_checks_delimit();
        lemma_checks_fit(a.checks@);
        lemma_checks_fit(b.checks@);
        assert(a.checks.len() == a.checks@.len());
        assert(b.checks.len() == b.checks@.len());
        assert(wa[0] == a.gtype && wb[0] == b.gtype);
        assert(wa.drop_first() =~= counted(ca, check_words()) + none);
        assert(wb.drop_first() =~= counted(cb, check_words()) + none);
        lemma_counted_delimits(check_words(), check_fits(), ca, cb, none, none);
    }
}

/// Two error model types have the same words exactly if they have the same check model
/// type and the same mechanisms, probabilities compared by their bits.
pub proof fn law_error_model_words_are_faithful(a: ErrorModelType, b: ErrorModelType)
    ensures
        error_model_type_words(a.ctype, errors_view(a.errors@)) == error_model_type_words(b.ctype, errors_view(b.errors@)) <==> (
        a.ctype == b.ctype && errors_view(a.errors@) == errors_view(b.errors@)),
{
    let (ea, eb) = (errors_view(a.errors@), errors_view(b.errors@));
    let (wa, wb) = (error_model_type_words(a.ctype, ea), error_model_type_words(b.ctype, eb));
    if wa == wb {
        let none = Seq::<u64>::empty();
        lemma_errors_delimit();
        lemma_errors_fit(a.errors@);
        lemma_errors_fit(b.errors@);
        assert(a.errors.len() == a.errors@.len());
        assert(b.errors.len() == b.errors@.len());
        assert(wa[0] == a.ctype && wb[0] == b.ctype);
        assert(wa.drop_first() =~= counted(ea, error_words()) + none);
        assert(wb.drop_first() =~= counted(eb, error_words()) + none);
        lemma_counted_delimits(error_words(), error_fits(), ea, eb, none, none);
    }
}

// ---------------------------------------------------------------------------
// Composed items
// ---------------------------------------------------------------------------

/// The words of an optional item.
pub open spec fn option_words<T>(words: spec_fn(T) -> Seq<u64>) -> spec_fn(Option<T>) -> Seq<u64> {
    |o: Option<T>|
        match o {
            None => seq![0u64],
            Some(x) => seq![1u64] + words(x),
        }
}

/// An optional item is fine if the item is.
pub open spec fn option_ok<T>(ok: spec_fn(T) -> bool) -> spec_fn(Option<T>) -> bool {
    |o: Option<T>| o matches Some(x) ==> ok(x)
}

/// The words of a pair.
pub open spec fn pair_words<A, B>(first: spec_fn(A) -> Seq<u64>, second: spec_fn(B) -> Seq<u64>) -> spec_fn((A, B)) -> Seq<u64> {
    |p: (A, B)| first(p.0) + second(p.1)
}

/// A pair is fine if both are.
pub open spec fn pair_ok<A, B>(first: spec_fn(A) -> bool, second: spec_fn(B) -> bool) -> spec_fn((A, B)) -> bool {
    |p: (A, B)| first(p.0) && second(p.1)
}

/// The words of a counted list.
pub open spec fn list_words<T>(words: spec_fn(T) -> Seq<u64>) -> spec_fn(Seq<T>) -> Seq<u64> {
    |list: Seq<T>| counted(list, words)
}

/// A list is fine if it can be counted and its items are.
pub open spec fn list_ok<T>(ok: spec_fn(T) -> bool) -> spec_fn(Seq<T>) -> bool {
    |list: Seq<T>| list.len() <= u64::MAX && all_ok(list, ok)
}

/// Optional items show where they end.
pub proof fn lemma_options_delimit<T>(words: spec_fn(T) -> Seq<u64>, ok: spec_fn(T) -> bool)
    requires
        self_delimiting(words, ok),
    ensures
        self_delimiting(option_words(words), option_ok(ok)),
{
    let w = option_words(words);
    let k = option_ok(ok);
    assert forall|a: Option<T>, b: Option<T>, s: Seq<u64>, t: Seq<u64>|
        k(a) && k(b) && #[trigger] (w(a) + s) == #[trigger] (w(b) + t) implies a == b && s == t by {
        let (l, r) = (w(a) + s, w(b) + t);
        assert(l[0] == r[0]);
        match (a, b) {
            (Some(x), Some(y)) => {
                assert(l.drop_first() =~= words(x) + s);
                assert(r.drop_first() =~= words(y) + t);
            },
            (None, None) => {
                assert(l.drop_first() =~= s);
                assert(r.drop_first() =~= t);
            },
            _ => {},
        }
    }
}

/// Pairs show where they end.
pub proof fn lemma_pairs_delimit<A, B>(
    first: spec_fn(A) -> Seq<u64>,
    first_ok: spec_fn(A) -> bool,
    second: spec_fn(B) -> Seq<u64>,
    second_ok: spec_fn(B) -> bool,
)
    requires
        self_delimiting(first, first_ok),
        self_delimiting(second, second_ok),
    ensures
        self_delimiting(pair_words(first, second), pair_ok(first_ok, second_ok)),
{
    let w = pair_words(first, second);
    let k = pair_ok(first_ok, second_ok);
    assert forall|a: (A, B), b: (A, B), s: Seq<u64>, t: Seq<u64>|
        k(a) && k(b) && #[trigger] (w(a) + s) == #[trigger] (w(b) + t) implies a == b && s == t by {
        assert(w(a) + s =~= first(a.0) + (second(a.1) + s));
        assert(w(b) + t =~= first(b.0) + (second(b.1) + t));
    }
}

/// Lists show where they end.
pub proof fn lemma_lists_delimit<T>(words: spec_fn(T) -> Seq<u64>, ok: spec_fn(T) -> bool)
    requires
        self_delimiting(words, ok),
    ensures
        self_delimiting(list_words(words), list_ok(ok)),
{
    let w = list_words(words);
    let k = list_ok(ok);
    assert forall|a: Seq<T>, b: Seq<T>, s: Seq<u64>, t: Seq<u64>|
        k(a) && k(b) && #[trigger] (w(a) + s) == #[trigger] (w(b) + t) implies a == b && s == t by {
        lemma_counted_delimits(words, ok, a, b, s, t);
    }
}

/// Items with the same words are the same.
pub proof fn lemma_words_tell_apart<T>(words: spec_fn(T) -> Seq<u64>, ok: spec_fn(T) -> bool, a: T, b: T)
    requires
        self_delimiting(words, ok),
        ok(a),
        ok(b),
        words(a) == words(b),
    ensures
        a == b,
{
    let none = Seq::<u64>::empty();
    assert(words(a) + none == words(b) + none);
}

} // verus!
