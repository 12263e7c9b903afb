//! What the relay belief propagation decoder is set up with: its settings, the text that
//! says when it stops, the entries of its check matrix, and how syndromes go in and
//! parity factors come out.
use crate::bit_vector::{get_bit, lemma_set_positions, set_positions, BitVector};
use crate::hypergraph::{DecodingHypergraph, Hyperedge};
use vstd::prelude::*;

verus! {

/// How many iterations belief propagation takes at most.
pub fn max_iter() -> (n: usize)
    ensures
        n == 200,
{
    200
}

/// How many iterations come before the first relay.
pub fn pre_iter() -> (n: usize)
    ensures
        n == 80,
{
    80
}

/// How many relays there are.
pub fn num_sets() -> (n: usize)
    ensures
        n == 100,
{
    100
}

/// How many iterations a relay takes at most.
pub fn set_max_iter() -> (n: usize)
    ensures
        n == 60,
{
    60
}

/// When the decoder stops, unless set otherwise.
pub fn stopping_criterion() -> (text: String)
    ensures
        text@ == "NConv(stop_after=5)"@,
{
    "NConv(stop_after=5)".to_owned()
}

/// When the decoder stops.
#[derive(Debug, Clone, Copy, PartialEq, Eq, Structural)]
pub enum StoppingCriterion {
    /// after the iterations before the first relay
    PreIter,
    /// after all relays
    All,
    /// when this many solutions were found
    NConv { stop_after: usize },
}

/// The value of a decimal digit.
pub open spec fn digit_value(c: char) -> Option<nat> {
    if '0' <= c <= '9' {
        Some((c as int - 48) as nat)
    } else {
        None
    }
}

/// The number that the first `n` digits stand for.
pub open spec fn digits_value(text: Seq<char>, n: int) -> Option<nat>
    decreases n,
{
    if n <= 0 {
        Some(0)
    } else {
        match (digits_value(text, n - 1), digit_value(text[n - 1])) {
            (Some(before), Some(d)) => Some(10 * before + d),
            _ => None,
        }
    }
}

/// The number that a text stands for: digits, after a plus sign or not.
pub open spec fn number_of(text: Seq<char>) -> Option<usize> {
    let digits = if text.len() > 0 && text[0] == '+' {
        text.drop_first()
    } else {
        text
    };
    if digits.len() == 0 {
        None
    } else {
        match digits_value(digits, digits.len() as int) {
            Some(n) => if n <= usize::MAX {
                Some(n as usize)
            } else {
                None
            },
            None => None,
        }
    }
}

/// The text before the number of solutions.
pub open spec fn n_conv_prefix() -> Seq<char> {
    "NConv(stop_after="@
}

/// The criterion that a text stands for.
pub open spec fn criterion_of(text: Seq<char>) -> Option<StoppingCriterion> {
    let prefix = n_conv_prefix();
    if text == "PreIter"@ {
        Some(StoppingCriterion::PreIter)
    } else if text == "All"@ {
        Some(StoppingCriterion::All)
    } else if text.len() > prefix.len() && text.take(prefix.len() as int) == prefix && text.last() == ')' {
        match number_of(text.subrange(prefix.len() as int, text.len() - 1)) {
            Some(stop_after) => Some(StoppingCriterion::NConv { stop_after }),
            None => None,
        }
    } else {
        None
    }
}

/// More digits stand for no smaller number, and only if the first ones are digits.
proof fn lemma_digits_grow(text: Seq<char>, a: int, b: int)
    requires
        0 <= a <= b,
    ensures
        digits_value(text, a) is None ==> digits_value(text, b) is None,
        digits_value(text, b) is Some ==> digits_value(text, a) is Some && digits_value(text, a)->0 <= digits_value(text, b)->0,
    decreases b - a,
{
    if a < b {
        lemma_digits_grow(text, a, b - 1);
    }
}

/// The value of a decimal digit.
fn digit_of(c: char) -> (d: Option<usize>)
    ensures
        match digit_value(c) {
            Some(n) => d == Some(n as usize),
            None => d is None,
        },
{
    match c {
        '0' => Some(0),
        '1' => Some(1),
        '2' => Some(2),
        '3' => Some(3),
        '4' => Some(4),
        '5' => Some(5),
        '6' => Some(6),
        '7' => Some(7),
        '8' => Some(8),
        '9' => Some(9),
        _ => None,
    }
}

/// Reads a number.
fn parse_number(text: &Vec<char>) -> (n: Option<usize>)
    ensures
        n == number_of(text@),
{
    let start: usize = if text.len() > 0 && text[0] == '+' {
        1
    } else {
        0
    };
    let ghost digits = if text@.len() > 0 && text@[0] == '+' {
        text@.drop_first()
    } else {
        text@
    };
    assert(digits =~= text@.skip(start as int));
    if text.len() == start {
        return None;
    }
    let mut value: usize = 0;
    let mut i: usize = start;
    while i < text.len()
        invariant
            start <= i <= text@.len(),
            digits == text@.skip(start as int),
            digits.len() == text@.len() - start,
            digits.len() > 0,
            number_of(text@) == (match digits_value(digits, digits.len() as int) {
                Some(n) => if n <= usize::MAX {
                    Some(n as usize)
                } else {
                    None
                },
                None => None,
            }),
            digits_value(digits, i - start) == Some(value as nat),
        decreases text@.len() - i,
    {
        proof {
            lemma_digits_grow(digits, i - start + 1, digits.len() as int);
            assert(digits[i - start] == text@[i as int]);
        }
        let Some(d) = digit_of(text[i]) else {
            return None;
        };
        if value > (usize::MAX - d) / 10 {
            assert(10 * value + d > usize::MAX);
            return None;
        }
        value = 10 * value + d;
        i += 1;
    }
    Some(value)
}

/// Reads a stopping criterion. `None` if the text stands for none.
pub fn stopping_criterion_of(stopping_criterion: &str) -> (criterion: Option<StoppingCriterion>)
    ensures
        criterion == criterion_of(stopping_criterion@),
{
    let text = stopping_criterion.to_owned();
    if text == "PreIter".to_owned() {
        return Some(StoppingCriterion::PreIter);
    }
    if text == "All".to_owned() {
        return Some(StoppingCriterion::All);
    }
    let prefix = "NConv(stop_after=";
    let n: usize = prefix.unicode_len();
    let len: usize = stopping_criterion.unicode_len();
    let ghost given = stopping_criterion@;
    let ghost head = n_conv_prefix();
    if len <= n {
        return None;
    }
    let mut i: usize = 0;
    while i < n
        invariant
            i <= n < len,
            n == head.len(),
            head == prefix@,
            given == stopping_criterion@,
            len == given.len(),
            forall|k: int| 0 <= k < i ==> given[k] == head[k],
            criterion_of(given) is Some ==> given.take(n as int) == head || given == "PreIter"@ || given == "All"@,
            given != "PreIter"@,
            given != "All"@,
        decreases n - i,
    {
        if stopping_criterion.get_char(i) != prefix.get_char(i) {
            assert(given.take(n as int)[i as int] != head[i as int]);
            return None;
        }
        i += 1;
    }
    assert(given.take(n as int) =~= head);
    if stopping_criterion.get_char(len - 1) != ')' {
        return None;
    }
    let mut middle: Vec<char> = Vec::new();
    let mut k: usize = n;
    while k < len - 1
        invariant
            n <= k <= len - 1,
            len == given.len(),
            given == stopping_criterion@,
            middle@ =~= given.subrange(n as int, k as int),
        decreases len - k,
    {
        middle.push(stopping_criterion.get_char(k));
        k += 1;
    }
    match parse_number(&middle) {
        Some(stop_after) => Some(StoppingCriterion::NConv { stop_after }),
        None => None,
    }
}

/// A digit is read as itself.
proof fn lemma_digit_is_read(d: nat)
    requires
        d < 10,
    ensures
        digit_value(crate::status::digit(d)) == Some(d),
{
    let c = crate::status::digit(d);
    assert(c as int == 48 + d);
}

/// The digits of a number are read as that number.
pub proof fn law_decimal_is_read_back(n: nat)
    ensures
        digits_value(crate::status::decimal(n), crate::status::decimal(n).len() as int) == Some(n),
    decreases n,
{
    let text = crate::status::decimal(n);
    if n < 10 {
        lemma_digit_is_read(n);
        assert(digits_value(text, 0) == Some(0nat));
    } else {
        let head = crate::status::decimal(n / 10);
        law_decimal_is_read_back(n / 10);
        lemma_digit_is_read(n % 10);
        lemma_digits_of_prefix(head, text, head.len() as int);
        assert(text.last() == crate::status::digit(n % 10));
    }
}

/// The first digits stand for the same number in a longer text.
proof fn lemma_digits_of_prefix(a: Seq<char>, b: Seq<char>, n: int)
    requires
        0 <= n <= a.len() <= b.len(),
        forall|i: int| 0 <= i < a.len() ==> a[i] == b[i],
    ensures
        digits_value(a, n) == digits_value(b, n),
    decreases n,
{
    if n > 0 {
        lemma_digits_of_prefix(a, b, n - 1);
    }
}

/// The entries of one column of the check matrix.
pub open spec fn column_entries(vertices: Seq<u64>, column: int) -> Seq<(u64, usize)> {
    vertices.map_values(|v: u64| (v, column as usize))
}

/// The entries of the first `n` columns of the check matrix: one row for each vertex, one
/// column for each hyperedge.
pub open spec fn matrix_entries(hyperedges: Seq<Hyperedge>, n: int) -> Seq<(u64, usize)>
    decreases n,
{
    if n <= 0 {
        Seq::empty()
    } else {
        matrix_entries(hyperedges, n - 1) + column_entries(hyperedges[n - 1].vertices@, n - 1)
    }
}

/// Where the check matrix of a hypergraph has ones, column by column.
pub fn check_matrix_entries(hypergraph: &DecodingHypergraph) -> (entries: Vec<(u64, usize)>)
    ensures
        entries@ == matrix_entries(hypergraph.hyperedges@, hypergraph.hyperedges@.len() as int),
{
    let mut entries: Vec<(u64, usize)> = Vec::new();
    let mut j: usize = 0;
    while j < hypergraph.hyperedges.len()
        invariant
            j <= hypergraph.hyperedges@.len(),
            entries@ == matrix_entries(hypergraph.hyperedges@, j as int),
        decreases hypergraph.hyperedges@.len() - j,
    {
        let vertices = &hypergraph.hyperedges[j].vertices;
        let ghost before = entries@;
        let mut k: usize = 0;
        while k < vertices.len()
            invariant
                k <= vertices@.len(),
                entries@ =~= before + column_entries(vertices@, j as int).take(k as int),
            decreases vertices@.len() - k,
        {
            entries.push((vertices[k], j));
            k += 1;
        }
        assert(column_entries(vertices@, j as int).take(vertices@.len() as int) =~= column_entries(vertices@, j as int));
        j += 1;
    }
    entries
}

/// A syndrome with one number for each detector: one if it fired, else zero.
pub fn detector_bits(syndrome: &BitVector) -> (bits: Vec<u8>)
    requires
        syndrome.wf(),
    ensures
        bits@.len() == syndrome@.len(),
        forall|i: int| 0 <= i < bits@.len() ==> #[trigger] bits@[i] == (if syndrome@[i] {
            1u8
        } else {
            0u8
        }),
{
    let mut bits: Vec<u8> = Vec::new();
    let mut i: u64 = 0;
    while i < syndrome.size
        invariant
            syndrome.wf(),
            i <= syndrome.size,
            syndrome@.len() == syndrome.size,
            bits@.len() == i,
            forall|k: int| 0 <= k < i ==> #[trigger] bits@[k] == (if syndrome@[k] {
                1u8
            } else {
                0u8
            }),
        decreases syndrome.size - i,
    {
        if get_bit(syndrome, i) {
            bits.push(1);
        } else {
            bits.push(0);
        }
        i += 1;
    }
    bits
}

/// The hyperedges that a decoding chooses: those with a one, in increasing order.
pub fn chosen_hyperedges(decoding: &Vec<u8>) -> (subgraph: Vec<u64>)
    ensures
        subgraph@ == set_positions(decoding@.map_values(|b: u8| b == 1), 0),
        crate::order::strictly_increasing(subgraph@),
        forall|k: u64| #[trigger] subgraph@.contains(k) <==> k < decoding@.len() && decoding@[k as int] == 1,
{
    let ghost ones = decoding@.map_values(|b: u8| b == 1);
    let mut subgraph: Vec<u64> = Vec::new();
    let mut i: usize = 0;
    while i < decoding.len()
        invariant
            i <= decoding@.len(),
            ones == decoding@.map_values(|b: u8| b == 1),
            subgraph@ + set_positions(ones, i as int) == set_positions(ones, 0),
        decreases decoding@.len() - i,
    {
        let ghost before = subgraph@;
        if decoding[i] == 1 {
            subgraph.push(i as u64);
            assert(before + (seq![i as u64] + set_positions(ones, i + 1)) =~= before.push(i as u64) + set_positions(ones, i + 1));
        }
        i += 1;
    }
    proof {
        assert(subgraph@ + Seq::<u64>::empty() =~= subgraph@);
        lemma_set_positions(ones, 0);
    }
    subgraph
}

/// A syndrome that goes in and comes out unchanged names its set bits.
pub proof fn law_bits_come_back(syndrome: Seq<bool>, bits: Seq<u8>)
    requires
        bits.len() == syndrome.len(),
        forall|i: int| 0 <= i < bits.len() ==> #[trigger] bits[i] == (if syndrome[i] {
            1u8
        } else {
            0u8
        }),
    ensures
        set_positions(bits.map_values(|b: u8| b == 1), 0) == set_positions(syndrome, 0),
{
    assert(bits.map_values(|b: u8| b == 1) =~= syndrome);
}

/// The entries of the check matrix are, hyperedge by hyperedge, its vertices in the column
/// of its number.
pub proof fn law_matrix_has_a_column_for_each_hyperedge(hyperedges: Seq<Hyperedge>, n: int)
    requires
        0 <= n <= hyperedges.len(),
    ensures
        matrix_entries(hyperedges, n) == Seq::new(
            n as nat,
            |i: int| hyperedges[i].vertices@.map_values(|v: u64| (v, i as usize)),
        ).flatten(),
    decreases n,
{
    let column = |i: int| hyperedges[i].vertices@.map_values(|v: u64| (v, i as usize));
    let columns = Seq::new(n as nat, column);
    if n > 0 {
        law_matrix_has_a_column_for_each_hyperedge(hyperedges, n - 1);
        let before = Seq::new((n - 1) as nat, column);
        before.lemma_flatten_push(column(n - 1));
        assert(columns =~= before.push(column(n - 1)));
        assert(column(n - 1) =~= column_entries(hyperedges[n - 1].vertices@, n - 1));
    } else {
        assert(columns =~= Seq::<Seq<(u64, usize)>>::empty());
    }
}

/// Numbers are read as they are written, with or without a sign.
pub proof fn law_written_number_is_read(n: usize)
    ensures
        number_of(crate::status::decimal(n as nat)) == Some(n),
        number_of(seq!['+'] + crate::status::decimal(n as nat)) == Some(n),
{
    let text = crate::status::decimal(n as nat);
    law_decimal_is_read_back(n as nat);
    lemma_decimal_starts_with_digit(n as nat);
    assert((seq!['+'] + text).drop_first() =~= text);
}

proof fn lemma_decimal_starts_with_digit(n: nat)
    ensures
        crate::status::decimal(n).len() > 0,
        crate::status::decimal(n)[0] != '+',
    decreases n,
{
    if n < 10 {
        lemma_digit_is_read(n);
    } else {
        lemma_decimal_starts_with_digit(n / 10);
    }
}

/// A stopping criterion is read as it is written.
pub proof fn law_written_criterion_is_read(n: usize)
    ensures
        criterion_of("PreIter"@) == Some(StoppingCriterion::PreIter),
        criterion_of("All"@) == Some(StoppingCriterion::All),
        criterion_of("NConv(stop_after="@ + crate::status::decimal(n as nat) + seq![')']) == Some(
            StoppingCriterion::NConv { stop_after: n },
        ),
{
    reveal_strlit("PreIter");
    reveal_strlit("All");
    reveal_strlit("NConv(stop_after=");
    assert("PreIter"@[0] != "All"@[0]);
    let prefix = "NConv(stop_after="@;
    let number = crate::status::decimal(n as nat);
    let text = prefix + number + seq![')'];
    assert(text[0] == 'N');
    assert(text.take(prefix.len() as int) =~= prefix);
    assert(text.subrange(prefix.len() as int, text.len() - 1) =~= number);
    assert(text.last() == ')');
    law_written_number_is_read(n);
}

} // verus!
