//! Reading back a rendered instance: when the cities' ids are distinct,
//! parsing the text that `format_instance` writes gives the instance back.

use vstd::prelude::*;

use crate::instance_reader::{
    all_digits, comma_pieces, digits_value, instance_tokens, is_digit, is_whitespace, last_index,
    parse_i32_spec, parsed_or_empty, resolved_position, token_resolves, tokens_of, trim_end,
    trim_start, trimmed, unsigned_part,
};
use crate::instance_writer::id_label;
use crate::text::{comma_joined, digit_char, digits_of, signed_digits};

verus! {

/// The text is a signed decimal numeral: an optional '-', then digits.
spec fn numeral(t: Seq<char>) -> bool {
    &&& t.len() > 0
    &&& t[0] == '-' || is_digit(t[0])
    &&& forall|i: int| 1 <= i < t.len() ==> is_digit(#[trigger] t[i])
}

proof fn lemma_digit_char_value(d: int)
    requires
        0 <= d < 10,
    ensures
        digit_char(d) as u32 == 48 + d,
        is_digit(digit_char(d)),
{
}

proof fn lemma_digits_of(v: nat)
    ensures
        digits_of(v).len() > 0,
        all_digits(digits_of(v)),
        digits_value(digits_of(v)) == v,
    decreases v,
{
    lemma_digit_char_value((v % 10) as int);
    if v >= 10 {
        lemma_digits_of(v / 10);
        let d = digits_of(v);
        assert(d.drop_last() =~= digits_of(v / 10));
        assert(d.last() == digit_char((v % 10) as int));
        assert(digits_value(d) == 10 * digits_value(digits_of(v / 10)) + (v % 10));
        assert(forall|i: int|
            0 <= i < d.len() - 1 ==> #[trigger] d[i] == digits_of(v / 10)[i]);
    } else {
        let d = digits_of(v);
        assert(d.drop_last() =~= Seq::<char>::empty());
        assert(digits_value(Seq::<char>::empty()) == 0);
    }
}

proof fn lemma_label_is_numeral(v: i32)
    ensures
        numeral(signed_digits(v as int)),
        parse_i32_spec(signed_digits(v as int)) == Some(v),
{
    let t = signed_digits(v as int);
    if v < 0 {
        let m = (-v) as nat;
        lemma_digits_of(m);
        assert(t.drop_first() =~= digits_of(m));
        assert(unsigned_part(t) == digits_of(m));
        assert forall|i: int| 1 <= i < t.len() implies is_digit(#[trigger] t[i]) by {
            assert(t[i] == digits_of(m)[i - 1]);
        }
    } else {
        lemma_digits_of(v as nat);
        assert(unsigned_part(t) == t);
    }
}

proof fn lemma_numeral_char(t: Seq<char>, i: int)
    requires
        numeral(t),
        0 <= i < t.len(),
    ensures
        t[i] != ',',
        !is_whitespace(t[i]),
{
    if i > 0 {
        assert(is_digit(t[i]));
    }
}

proof fn lemma_numeral_trimmed(t: Seq<char>)
    requires
        numeral(t),
    ensures
        trimmed(t) == t,
{
    lemma_numeral_char(t, 0);
    lemma_numeral_char(t, t.len() - 1);
    assert(trim_start(t) == t);
    assert(trim_end(t) == t);
}

proof fn lemma_pieces_extend(x: Seq<char>, y: Seq<char>)
    requires
        forall|i: int| 0 <= i < y.len() ==> #[trigger] y[i] != ',',
    ensures
        comma_pieces(x + y).len() == comma_pieces(x).len(),
        comma_pieces(x + y) == comma_pieces(x).update(
            comma_pieces(x).len() - 1,
            comma_pieces(x).last() + y,
        ),
    decreases y.len(),
{
    lemma_pieces_nonempty(x);
    if y.len() == 0 {
        assert(x + y =~= x);
        assert(comma_pieces(x).last() + y =~= comma_pieces(x).last());
        assert(comma_pieces(x).update(comma_pieces(x).len() - 1, comma_pieces(x).last())
            =~= comma_pieces(x));
    } else {
        let y0 = y.drop_last();
        lemma_pieces_extend(x, y0);
        assert((x + y).drop_last() =~= x + y0);
        assert((x + y).last() == y.last());
        assert(comma_pieces(x).last() + y0 + seq![y.last()] =~= comma_pieces(x).last() + y);
        let rest = comma_pieces(x + y0);
        assert(y[y.len() - 1] != ',');
        assert(comma_pieces(x + y) == rest.update(rest.len() - 1, rest.last().push(y.last())));
        assert(rest.last() == comma_pieces(x).last() + y0);
        assert((comma_pieces(x).last() + y0).push(y.last()) =~= comma_pieces(x).last() + y);
        assert(comma_pieces(x + y) =~= comma_pieces(x).update(
            comma_pieces(x).len() - 1,
            comma_pieces(x).last() + y,
        ));
    }
}

proof fn lemma_pieces_nonempty(s: Seq<char>)
    ensures
        comma_pieces(s).len() >= 1,
    decreases s.len(),
{
    if s.len() > 0 {
        lemma_pieces_nonempty(s.drop_last());
    }
}

proof fn lemma_pieces_of_joined(parts: Seq<Seq<char>>)
    requires
        parts.len() >= 1,
        forall|k: int| 0 <= k < parts.len() ==> numeral(#[trigger] parts[k]),
    ensures
        comma_pieces(comma_joined(parts)) == parts,
    decreases parts.len(),
{
    let last = parts.last();
    assert forall|i: int| 0 <= i < last.len() implies #[trigger] last[i] != ',' by {
        lemma_numeral_char(last, i);
    }
    if parts.len() == 1 {
        lemma_pieces_extend(Seq::<char>::empty(), last);
        assert(Seq::<char>::empty() + last =~= last);
        assert(comma_pieces(Seq::<char>::empty()) =~= seq![Seq::<char>::empty()]);
        assert(comma_joined(parts) == parts[0]);
        assert(comma_pieces(comma_joined(parts)) =~= parts);
    } else {
        let front = parts.drop_last();
        lemma_pieces_of_joined(front);
        let x = comma_joined(front) + seq![','];
        assert((comma_joined(front) + seq![',']).drop_last() =~= comma_joined(front));
        assert(comma_pieces(x) == front.push(Seq::<char>::empty()));
        lemma_pieces_extend(x, last);
        assert(Seq::<char>::empty() + last =~= last);
        assert(comma_pieces(x + last) =~= parts);
    }
}

proof fn lemma_tokens_of_numerals(parts: Seq<Seq<char>>)
    requires
        forall|k: int| 0 <= k < parts.len() ==> numeral(#[trigger] parts[k]),
    ensures
        tokens_of(parts) == parts,
    decreases parts.len(),
{
    if parts.len() > 0 {
        lemma_tokens_of_numerals(parts.drop_last());
        lemma_numeral_trimmed(parts.last());
        assert(parts.drop_last().push(parts.last()) =~= parts);
    }
}

proof fn lemma_last_index_distinct(ids: Seq<i32>, i: int, upto: int)
    requires
        0 <= i < upto <= ids.len(),
        forall|a: int, b: int| 0 <= a < b < ids.len() ==> ids[a] != ids[b],
    ensures
        last_index(ids, ids[i], upto) == Some(i),
    decreases upto,
{
    if upto - 1 != i {
        assert(ids[upto - 1] != ids[i]);
        lemma_last_index_distinct(ids, i, upto - 1);
    }
}

/// When no two cities share an id, the text that `format_instance` renders
/// for an instance reads back as that instance: every token resolves, to
/// the instance's own city positions, in order, so `parse_instance` gives
/// the instance back.
pub proof fn lemma_rendered_instance_parses_back(ids: Seq<i32>, instance: Seq<usize>)
    requires
        forall|a: int, b: int| 0 <= a < b < ids.len() ==> ids[a] != ids[b],
        forall|k: int| 0 <= k < instance.len() ==> #[trigger] instance[k] < ids.len(),
    ensures
        ({
            let text = comma_joined(
                Seq::new(instance.len(), |k: int| id_label(ids, instance[k] as int)),
            );
            &&& instance_tokens(text).len() == instance.len()
            &&& forall|t: int|
                0 <= t < instance.len() ==> token_resolves(#[trigger] instance_tokens(text)[t], ids)
                    && resolved_position(instance_tokens(text)[t], ids) == instance[t]
            &&& parsed_or_empty(text, ids) == instance
        }),
{
    let labels = Seq::new(instance.len(), |k: int| id_label(ids, instance[k] as int));
    let text = comma_joined(labels);
    assert forall|k: int| 0 <= k < labels.len() implies numeral(#[trigger] labels[k]) by {
        lemma_label_is_numeral(ids[instance[k] as int]);
    }
    if labels.len() == 0 {
        assert(text =~= Seq::<char>::empty());
        assert(comma_pieces(text) =~= seq![Seq::<char>::empty()]);
        assert(trimmed(Seq::<char>::empty()) =~= Seq::<char>::empty());
        let pieces = comma_pieces(text);
        assert(pieces.drop_last() =~= Seq::<Seq<char>>::empty());
        assert(pieces.last() == Seq::<char>::empty());
        assert(tokens_of(Seq::<Seq<char>>::empty()) == Seq::<Seq<char>>::empty());
        assert(trimmed(pieces.last()).len() == 0);
        assert(tokens_of(pieces) == tokens_of(pieces.drop_last()));
        assert(instance_tokens(text) =~= Seq::<Seq<char>>::empty());
    } else {
        lemma_pieces_of_joined(labels);
    }
    lemma_tokens_of_numerals(labels);
    assert(instance_tokens(text) == labels);
    assert forall|t: int| 0 <= t < instance.len() implies token_resolves(
        #[trigger] instance_tokens(text)[t],
        ids,
    ) && resolved_position(instance_tokens(text)[t], ids) == instance[t] by {
        let i = instance[t] as int;
        lemma_label_is_numeral(ids[i]);
        lemma_last_index_distinct(ids, i, ids.len() as int);
    }
    assert(parsed_or_empty(text, ids) =~= instance);
}

} // verus!
