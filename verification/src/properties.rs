//! The metadata record of a unit and how it is built from parameters.

use vstd::prelude::*;
use vstd::string::*;
use crate::error::{ParseError, ParseFault};
use crate::text::same_text;
use crate::tokenizer::{pair_models, tokenize, tokenized, ParameterPair};

verus! {

/// The metadata of a unit of measurement. A value is always complete: it is
/// built in one step from a directive that gave every required parameter.
#[derive(Debug, PartialEq, Eq)]
pub struct UnitProperties {
    /// The identifier of the entity that the directive is attached to.
    pub name: String,
    /// The identifier of the quantity that the unit measures.
    pub quantity: String,
    /// The short display token of the unit.
    pub symbol: String,
    /// The unit's name for one.
    pub singular: String,
    /// The unit's name for several.
    pub plural: String,
}

/// The mathematical model of a `UnitProperties`.
pub struct UnitMetadata {
    pub name: Seq<char>,
    pub quantity: Seq<char>,
    pub symbol: Seq<char>,
    pub singular: Seq<char>,
    pub plural: Seq<char>,
}

impl View for UnitProperties {
    type V = UnitMetadata;

    open spec fn view(&self) -> UnitMetadata {
        UnitMetadata {
            name: self.name@,
            quantity: self.quantity@,
            symbol: self.symbol@,
            singular: self.singular@,
            plural: self.plural@,
        }
    }
}

/// Whether a directive may use `key`.
pub open spec fn is_known_key(key: Seq<char>) -> bool {
    key == "quantity"@ || key == "symbol"@ || key == "singular"@ || key == "plural"@
}

/// The value of the last parameter with this key.
pub open spec fn last_value(pairs: Seq<(Seq<char>, Seq<char>)>, key: Seq<char>) -> Option<
    Seq<char>,
>
    decreases pairs.len(),
{
    if pairs.len() == 0 {
        None
    } else if pairs.last().0 == key {
        Some(pairs.last().1)
    } else {
        last_value(pairs.drop_last(), key)
    }
}

/// The first key that no unit knows.
pub open spec fn first_unknown_key(pairs: Seq<(Seq<char>, Seq<char>)>) -> Option<Seq<char>>
    decreases pairs.len(),
{
    if pairs.len() == 0 {
        None
    } else {
        match first_unknown_key(pairs.drop_last()) {
            Some(key) => Some(key),
            None => if is_known_key(pairs.last().0) {
                None
            } else {
                Some(pairs.last().0)
            },
        }
    }
}

/// The plural of a unit whose directive gives none.
pub open spec fn inferred_plural(singular: Seq<char>) -> Seq<char> {
    singular.push('s')
}

/// The record that a list of parameters describes, or why it describes none.
/// An unknown key is reported before any missing parameter; of the missing
/// ones `singular` comes first, then `quantity`, then `symbol`.
pub open spec fn synthesized(name: Seq<char>, pairs: Seq<(Seq<char>, Seq<char>)>) -> Result<
    UnitMetadata,
    ParseFault,
> {
    if let Some(key) = first_unknown_key(pairs) {
        Err(ParseFault::UnexpectedParam { param: key })
    } else if last_value(pairs, "singular"@) is None {
        Err(ParseFault::ParamMissing { param: "singular"@ })
    } else if last_value(pairs, "quantity"@) is None {
        Err(ParseFault::ParamMissing { param: "quantity"@ })
    } else if last_value(pairs, "symbol"@) is None {
        Err(ParseFault::ParamMissing { param: "symbol"@ })
    } else {
        let singular = last_value(pairs, "singular"@).unwrap();
        Ok(
            UnitMetadata {
                name,
                quantity: last_value(pairs, "quantity"@).unwrap(),
                symbol: last_value(pairs, "symbol"@).unwrap(),
                singular,
                plural: match last_value(pairs, "plural"@) {
                    Some(plural) => plural,
                    None => inferred_plural(singular),
                },
            },
        )
    }
}

/// The record that a directive describes, or why it describes none.
pub open spec fn parsed(name: Seq<char>, raw: Seq<char>) -> Result<UnitMetadata, ParseFault> {
    match tokenized(raw) {
        Err(fault) => Err(fault),
        Ok(pairs) => synthesized(name, pairs),
    }
}

/// The model of a value that may be absent.
pub open spec fn text_of(slot: Option<String>) -> Option<Seq<char>> {
    match slot {
        Some(text) => Some(text@),
        None => None,
    }
}

/// An unknown key among the first `k` parameters is the first unknown key of
/// the whole list.
pub proof fn lemma_unknown_stays(pairs: Seq<(Seq<char>, Seq<char>)>, k: int)
    requires
        0 <= k <= pairs.len(),
        first_unknown_key(pairs.take(k)) is Some,
    ensures
        first_unknown_key(pairs) == first_unknown_key(pairs.take(k)),
    decreases pairs.len() - k,
{
    if k == pairs.len() {
        assert(pairs.take(k) =~= pairs);
    } else {
        assert(pairs.drop_last().take(k) =~= pairs.take(k));
        lemma_unknown_stays(pairs.drop_last(), k);
    }
}

/// The four keys are four different texts.
pub proof fn lemma_keys_differ()
    ensures
        "quantity"@ != "symbol"@,
        "quantity"@ != "singular"@,
        "quantity"@ != "plural"@,
        "symbol"@ != "singular"@,
        "symbol"@ != "plural"@,
        "singular"@ != "plural"@,
{
    reveal_strlit("quantity");
    reveal_strlit("symbol");
    reveal_strlit("singular");
    reveal_strlit("plural");
    assert("quantity"@[0] == 'q');
    assert("singular"@[0] == 's');
    assert("symbol"@[0] == 's');
    assert("plural"@[0] == 'p');
    assert("symbol"@.len() == 6);
    assert("singular"@.len() == 8);
}

/// Parameter `i` is the last one with this key.
pub open spec fn is_last_with_key(
    pairs: Seq<(Seq<char>, Seq<char>)>,
    key: Seq<char>,
    i: int,
) -> bool {
    &&& 0 <= i < pairs.len()
    &&& pairs[i].0 == key
    &&& forall|j: int| i < j < pairs.len() ==> pairs[j].0 != key
}

/// `last_value` is the value of the last parameter with the key, and is
/// absent exactly where no parameter has the key.
pub proof fn lemma_last_value(pairs: Seq<(Seq<char>, Seq<char>)>, key: Seq<char>)
    ensures
        match last_value(pairs, key) {
            Some(value) => exists|i: int| is_last_with_key(pairs, key, i) && pairs[i].1 == value,
            None => forall|i: int| 0 <= i < pairs.len() ==> pairs[i].0 != key,
        },
    decreases pairs.len(),
{
    if pairs.len() > 0 {
        if pairs.last().0 == key {
            assert(is_last_with_key(pairs, key, pairs.len() - 1));
        } else {
            let front = pairs.drop_last();
            lemma_last_value(front, key);
            match last_value(front, key) {
                Some(value) => {
                    let i = choose|i: int| is_last_with_key(front, key, i) && front[i].1 == value;
                    assert(front[i] == pairs[i]);
                    assert forall|j: int| i < j < pairs.len() implies pairs[j].0 != key by {
                        if j < front.len() {
                            assert(front[j] == pairs[j]);
                        }
                    }
                    assert(is_last_with_key(pairs, key, i));
                },
                None => {
                    assert forall|i: int| 0 <= i < pairs.len() implies pairs[i].0 != key by {
                        if i < front.len() {
                            assert(front[i] == pairs[i]);
                        }
                    }
                },
            }
        }
    }
}

/// Where every key is known, no unknown key is found.
pub proof fn lemma_all_known(pairs: Seq<(Seq<char>, Seq<char>)>)
    requires
        forall|i: int| 0 <= i < pairs.len() ==> is_known_key(#[trigger] pairs[i].0),
    ensures
        first_unknown_key(pairs) is None,
    decreases pairs.len(),
{
    if pairs.len() > 0 {
        let front = pairs.drop_last();
        assert forall|i: int| 0 <= i < front.len() implies is_known_key(#[trigger] front[i].0) by {
            assert(front[i] == pairs[i]);
            assert(is_known_key(pairs[i].0));
        }
        lemma_all_known(front);
        assert(is_known_key(pairs[pairs.len() - 1].0));
    }
}

/// Some parameter has this key.
pub open spec fn has_key(pairs: Seq<(Seq<char>, Seq<char>)>, key: Seq<char>) -> bool {
    exists|i: int| 0 <= i < pairs.len() && #[trigger] pairs[i].0 == key
}

/// Parameter `i` is the first one with an unknown key.
pub open spec fn is_first_unknown(pairs: Seq<(Seq<char>, Seq<char>)>, i: int) -> bool {
    &&& 0 <= i < pairs.len()
    &&& !is_known_key(pairs[i].0)
    &&& forall|j: int| 0 <= j < i ==> is_known_key(#[trigger] pairs[j].0)
}

/// The first parameter with an unknown key decides the fault, whatever the
/// other parameters are.
pub proof fn lemma_unknown_parameter(name: Seq<char>, pairs: Seq<(Seq<char>, Seq<char>)>, i: int)
    requires
        is_first_unknown(pairs, i),
    ensures
        synthesized(name, pairs) == Err::<UnitMetadata, ParseFault>(
            ParseFault::UnexpectedParam { param: pairs[i].0 },
        ),
{
    let front = pairs.take(i);
    let upto = pairs.take(i + 1);
    assert forall|j: int| 0 <= j < front.len() implies is_known_key(#[trigger] front[j].0) by {
        assert(front[j] == pairs[j]);
        assert(is_known_key(pairs[j].0));
    }
    lemma_all_known(front);
    assert(upto.drop_last() =~= front);
    assert(upto.last() == pairs[i]);
    assert(first_unknown_key(upto) == Some(pairs[i].0));
    lemma_unknown_stays(pairs, i + 1);
}

/// Parameters with known keys only, among them `quantity`, `symbol` and
/// `singular`, give a record: it has the name that was handed in, each
/// field holds the value of the last parameter with its key, and where no
/// parameter is `plural`, the plural is the singular with `s` behind it.
pub proof fn lemma_complete_parameters(name: Seq<char>, pairs: Seq<(Seq<char>, Seq<char>)>)
    requires
        forall|i: int| 0 <= i < pairs.len() ==> is_known_key(#[trigger] pairs[i].0),
        has_key(pairs, "quantity"@),
        has_key(pairs, "symbol"@),
        has_key(pairs, "singular"@),
    ensures
        synthesized(name, pairs) is Ok,
        synthesized(name, pairs)->Ok_0.name == name,
        last_value(pairs, "quantity"@) == Some(synthesized(name, pairs)->Ok_0.quantity),
        last_value(pairs, "symbol"@) == Some(synthesized(name, pairs)->Ok_0.symbol),
        last_value(pairs, "singular"@) == Some(synthesized(name, pairs)->Ok_0.singular),
        synthesized(name, pairs)->Ok_0.plural == match last_value(pairs, "plural"@) {
            Some(plural) => plural,
            None => inferred_plural(synthesized(name, pairs)->Ok_0.singular),
        },
        has_key(pairs, "plural"@) <==> last_value(pairs, "plural"@) is Some,
{
    lemma_all_known(pairs);
    lemma_last_value(pairs, "quantity"@);
    lemma_last_value(pairs, "symbol"@);
    lemma_last_value(pairs, "singular"@);
    lemma_last_value(pairs, "plural"@);
}

/// Parameters with known keys only that lack a required one are rejected
/// for the first that is missing of `singular`, `quantity` and `symbol`.
pub proof fn lemma_missing_parameter(name: Seq<char>, pairs: Seq<(Seq<char>, Seq<char>)>)
    requires
        forall|i: int| 0 <= i < pairs.len() ==> is_known_key(#[trigger] pairs[i].0),
    ensures
        !has_key(pairs, "singular"@) ==> synthesized(name, pairs) == Err::<
            UnitMetadata,
            ParseFault,
        >(ParseFault::ParamMissing { param: "singular"@ }),
        has_key(pairs, "singular"@) && !has_key(pairs, "quantity"@) ==> synthesized(name, pairs)
            == Err::<UnitMetadata, ParseFault>(ParseFault::ParamMissing { param: "quantity"@ }),
        has_key(pairs, "singular"@) && has_key(pairs, "quantity"@) && !has_key(pairs, "symbol"@)
            ==> synthesized(name, pairs) == Err::<UnitMetadata, ParseFault>(
            ParseFault::ParamMissing { param: "symbol"@ },
        ),
{
    lemma_all_known(pairs);
    lemma_last_value(pairs, "quantity"@);
    lemma_last_value(pairs, "symbol"@);
    lemma_last_value(pairs, "singular"@);
}

impl UnitProperties {
    /// Reads the directive `raw` of the entity `name`. Faults of form are
    /// reported before faults of content.
    pub fn parse(name: String, raw: &str) -> (r: Result<UnitProperties, ParseError>)
        ensures
            match r {
                Ok(unit) => parsed(name@, raw@) == Ok::<UnitMetadata, ParseFault>(unit@),
                Err(e) => parsed(name@, raw@) == Err::<UnitMetadata, ParseFault>(e@),
            },
    {
        match tokenize(raw) {
            Err(e) => Err(e),
            Ok(pairs) => synthesize(name, pairs),
        }
    }

    /// Appends `s` to the singular.
    pub fn infer_plural(singular: &str) -> (plural: String)
        ensures
            plural@ == inferred_plural(singular@),
    {
        let mut result: String = singular.to_owned();
        result.append("s");
        proof {
            reveal_strlit("s");
            assert(result@ =~= singular@.push('s'));
        }
        result
    }
}

/// Builds the record of the entity `name` from the parameters of its
/// directive. A later parameter replaces an earlier one with the same key.
pub fn synthesize(name: String, pairs: Vec<ParameterPair>) -> (r: Result<
    UnitProperties,
    ParseError,
>)
    ensures
        match r {
            Ok(unit) => synthesized(name@, pair_models(pairs@)) == Ok::<UnitMetadata, ParseFault>(
                unit@,
            ),
            Err(e) => synthesized(name@, pair_models(pairs@)) == Err::<UnitMetadata, ParseFault>(
                e@,
            ),
        },
{
    let ghost all = pair_models(pairs@);
    let mut quantity: Option<String> = None;
    let mut symbol: Option<String> = None;
    let mut singular: Option<String> = None;
    let mut plural: Option<String> = None;
    let mut k: usize = 0;
    assert(all.take(0) =~= Seq::empty());
    while k < pairs.len()
        invariant
            k <= pairs.len(),
            all == pair_models(pairs@),
            first_unknown_key(all.take(k as int)) is None,
            text_of(quantity) == last_value(all.take(k as int), "quantity"@),
            text_of(symbol) == last_value(all.take(k as int), "symbol"@),
            text_of(singular) == last_value(all.take(k as int), "singular"@),
            text_of(plural) == last_value(all.take(k as int), "plural"@),
        decreases pairs.len() - k,
    {
        proof {
            lemma_keys_differ();
            assert(all.take(k + 1).drop_last() =~= all.take(k as int));
            assert(all.take(k + 1).last() == pairs@[k as int]@);
        }
        let key: &str = pairs[k].key.as_str();
        if same_text(key, "quantity") {
            quantity = Some(pairs[k].value.clone());
        } else if same_text(key, "symbol") {
            symbol = Some(pairs[k].value.clone());
        } else if same_text(key, "singular") {
            singular = Some(pairs[k].value.clone());
        } else if same_text(key, "plural") {
            plural = Some(pairs[k].value.clone());
        } else {
            proof {
                assert(first_unknown_key(all.take(k + 1)) == Some(key@));
                lemma_unknown_stays(all, k + 1);
            }
            return Err(ParseError::UnexpectedParam { param: pairs[k].key.clone() });
        }
        k += 1;
    }
    assert(all.take(k as int) =~= all);
    let singular: String = match singular {
        Some(text) => text,
        None => {
            return Err(ParseError::ParamMissing { param: "singular".to_owned() });
        },
    };
    let plural: String = match plural {
        Some(text) => text,
        None => UnitProperties::infer_plural(singular.as_str()),
    };
    let quantity: String = match quantity {
        Some(text) => text,
        None => {
            return Err(ParseError::ParamMissing { param: "quantity".to_owned() });
        },
    };
    let symbol: String = match symbol {
        Some(text) => text,
        None => {
            return Err(ParseError::ParamMissing { param: "symbol".to_owned() });
        },
    };
    Ok(UnitProperties { name, quantity, symbol, singular, plural })
}

/// Reads the directive `raw_directive` of the entity `name`: cuts it into
/// parameters and builds the record from them.
pub fn parse_unit_directive(name: String, raw_directive: &str) -> (r: Result<
    UnitProperties,
    ParseError,
>)
    ensures
        match r {
            Ok(unit) => parsed(name@, raw_directive@) == Ok::<UnitMetadata, ParseFault>(unit@),
            Err(e) => parsed(name@, raw_directive@) == Err::<UnitMetadata, ParseFault>(e@),
        },
{
    UnitProperties::parse(name, raw_directive)
}

} // verus!
