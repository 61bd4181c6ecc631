//! What holds of every value that a directive gives: no separator stands in
//! it, and no quote at its ends.

use vstd::prelude::*;
use crate::directive::{plain_value, unit_directive};
use crate::error::ParseFault;
use crate::properties::{inferred_plural, lemma_last_value, parsed, UnitMetadata};
use crate::text::{
    lemma_pieces_are_free, lemma_pieces_keep_free, lemma_trimmed_ends, lemma_trimmed_keeps_free,
    occurs_at, split,
};
use crate::tokenizer::{
    directive_body, list_separator, pair_separator, quote, segment_pair, segment_pairs, tokenized,
};

verus! {

/// The value of a segment that holds no list separator is plain.
pub proof fn lemma_segment_value_is_plain(segment: Seq<char>)
    requires
        forall|j: int| !occurs_at(segment, list_separator(), j),
        segment_pair(segment) is Ok,
    ensures
        plain_value(segment_pair(segment)->Ok_0.1),
{
    let parts = split(segment, pair_separator());
    lemma_pieces_are_free(segment, pair_separator());
    lemma_pieces_keep_free(segment, pair_separator(), list_separator());
    assert(forall|j: int| !occurs_at(parts[1], pair_separator(), j));
    assert(forall|j: int| !occurs_at(parts[1], list_separator(), j));
    lemma_trimmed_keeps_free(parts[1], quote(), pair_separator());
    lemma_trimmed_keeps_free(parts[1], quote(), list_separator());
    lemma_trimmed_ends(parts[1], quote());
    assert(quote().contains('"')) by {
        assert(quote()[0] == '"');
    }
}

/// The values of segments that hold no list separator are plain.
pub proof fn lemma_values_are_plain(segments: Seq<Seq<char>>)
    requires
        forall|k: int, j: int|
            0 <= k < segments.len() ==> !(#[trigger] occurs_at(segments[k], list_separator(), j)),
        segment_pairs(segments) is Ok,
    ensures
        forall|i: int|
            0 <= i < segment_pairs(segments)->Ok_0.len() ==> plain_value(
                #[trigger] segment_pairs(segments)->Ok_0[i].1,
            ),
    decreases segments.len(),
{
    if segments.len() > 0 {
        let front = segments.drop_last();
        let last = segments.last();
        assert forall|k: int, j: int| 0 <= k < front.len() implies !(#[trigger] occurs_at(
            front[k],
            list_separator(),
            j,
        )) by {
            assert(front[k] == segments[k]);
            assert(!occurs_at(segments[k], list_separator(), j));
        }
        lemma_values_are_plain(front);
        assert forall|j: int| !occurs_at(last, list_separator(), j) by {
            assert(!occurs_at(segments[segments.len() - 1], list_separator(), j));
        }
        lemma_segment_value_is_plain(last);
        let pairs = segment_pairs(segments)->Ok_0;
        let before = segment_pairs(front)->Ok_0;
        assert(pairs == before.push(segment_pair(last)->Ok_0));
        assert forall|i: int| 0 <= i < pairs.len() implies plain_value(#[trigger] pairs[i].1) by {
            if i < before.len() {
                assert(pairs[i] == before[i]);
                assert(plain_value(before[i].1));
            }
        }
    }
}

/// Every value that the tokenizer gives is plain.
pub proof fn lemma_tokenized_values_are_plain(raw: Seq<char>)
    requires
        tokenized(raw) is Ok,
    ensures
        forall|i: int|
            0 <= i < tokenized(raw)->Ok_0.len() ==> plain_value(#[trigger] tokenized(raw)->Ok_0[i].1),
{
    let body = directive_body(raw);
    lemma_pieces_are_free(body, list_separator());
    lemma_values_are_plain(split(body, list_separator()));
}

/// The plural that is inferred from a plain singular is plain.
pub proof fn lemma_inferred_plural_is_plain(singular: Seq<char>)
    requires
        plain_value(singular),
    ensures
        plain_value(inferred_plural(singular)),
{
    let plural = inferred_plural(singular);
    assert forall|j: int| !occurs_at(plural, list_separator(), j) by {
        if occurs_at(plural, list_separator(), j) {
            let part = plural.subrange(j, j + 3);
            if j + 3 <= singular.len() {
                assert(singular.subrange(j, j + 3) =~= part);
                assert(occurs_at(singular, list_separator(), j));
            } else {
                assert(part[2] == plural[j + 2]);
            }
        }
    }
    assert forall|j: int| !occurs_at(plural, pair_separator(), j) by {
        if occurs_at(plural, pair_separator(), j) {
            let part = plural.subrange(j, j + 3);
            if j + 3 <= singular.len() {
                assert(singular.subrange(j, j + 3) =~= part);
                assert(occurs_at(singular, pair_separator(), j));
            } else {
                assert(part[2] == plural[j + 2]);
            }
        }
    }
    assert(plural.last() == 's');
    if singular.len() > 0 {
        assert(plural[0] == singular[0]);
    }
}

/// In every record that a directive gives, the quantity, the symbol, the
/// singular and the plural are plain.
pub proof fn lemma_parsed_fields_are_plain(name: Seq<char>, raw: Seq<char>)
    requires
        parsed(name, raw) is Ok,
    ensures
        plain_value(parsed(name, raw)->Ok_0.quantity),
        plain_value(parsed(name, raw)->Ok_0.symbol),
        plain_value(parsed(name, raw)->Ok_0.singular),
        plain_value(parsed(name, raw)->Ok_0.plural),
{
    let pairs = tokenized(raw)->Ok_0;
    let unit = parsed(name, raw)->Ok_0;
    lemma_tokenized_values_are_plain(raw);
    lemma_last_value(pairs, "quantity"@);
    lemma_last_value(pairs, "symbol"@);
    lemma_last_value(pairs, "singular"@);
    lemma_last_value(pairs, "plural"@);
    lemma_inferred_plural_is_plain(unit.singular);
}

/// A record that comes back from its own directive has plain fields: the
/// directive of any other record is rejected or read as another record.
pub proof fn lemma_round_trip_needs_plain(unit: UnitMetadata)
    requires
        parsed(unit.name, unit_directive(unit)) == Ok::<UnitMetadata, ParseFault>(unit),
    ensures
        plain_value(unit.quantity),
        plain_value(unit.symbol),
        plain_value(unit.singular),
        plain_value(unit.plural),
{
    lemma_parsed_fields_are_plain(unit.name, unit_directive(unit));
}

} // verus!
