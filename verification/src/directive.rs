//! Writing parameters out as a directive, and what reading it back gives.

use vstd::prelude::*;
use vstd::string::*;
use crate::error::ParseFault;
use crate::plain::lemma_parsed_fields_are_plain;
use crate::properties::{
    inferred_plural, lemma_all_known, lemma_keys_differ, lemma_last_value, parsed, synthesized,
    UnitMetadata, UnitProperties,
};
use crate::text::{
    find, lemma_split_step, lemma_split_whole, occurs_at, split, trim_end, trim_start, trimmed,
};
use crate::tokenizer::{
    directive_body, list_separator, pair_separator, quote, segment_pair, segment_pairs, tokenized,
    whitespace,
};

verus! {

/// A value between two quotes.
pub open spec fn quoted(value: Seq<char>) -> Seq<char> {
    quote() + value + quote()
}

/// One parameter as it stands in a directive. The second part of the pair is
/// the value as it is written, with its quotes where it has any.
pub open spec fn parameter_text(pair: (Seq<char>, Seq<char>)) -> Seq<char> {
    pair.0 + pair_separator() + pair.1
}

/// The parameters in their order, with the separator between them.
pub open spec fn parameter_list_text(pairs: Seq<(Seq<char>, Seq<char>)>) -> Seq<char>
    decreases pairs.len(),
{
    if pairs.len() == 0 {
        Seq::empty()
    } else if pairs.len() == 1 {
        parameter_text(pairs[0])
    } else {
        parameter_text(pairs[0]) + list_separator() + parameter_list_text(pairs.drop_first())
    }
}

/// The directive that holds these parameters.
pub open spec fn directive_text(pairs: Seq<(Seq<char>, Seq<char>)>) -> Seq<char> {
    seq!['(', ' '] + parameter_list_text(pairs) + seq![' ', ')']
}

/// The parameters with each value as it is read: without the quotes at its
/// ends.
pub open spec fn read_pairs(pairs: Seq<(Seq<char>, Seq<char>)>) -> Seq<(Seq<char>, Seq<char>)> {
    pairs.map_values(|p: (Seq<char>, Seq<char>)| (p.0, trimmed(p.1, quote())))
}

/// The four parameters of a record, each value quoted.
pub open spec fn unit_parameters(unit: UnitMetadata) -> Seq<(Seq<char>, Seq<char>)> {
    seq![
        ("quantity"@, quoted(unit.quantity)),
        ("symbol"@, quoted(unit.symbol)),
        ("singular"@, quoted(unit.singular)),
        ("plural"@, quoted(unit.plural)),
    ]
}

/// The directive that describes a record.
pub open spec fn unit_directive(unit: UnitMetadata) -> Seq<char> {
    directive_text(unit_parameters(unit))
}

/// A key that can be read back: it is not empty and holds no whitespace.
pub open spec fn plain_key(key: Seq<char>) -> bool {
    key.len() > 0 && forall|i: int| 0 <= i < key.len() ==> !whitespace().contains(#[trigger] key[i])
}

/// A written value that stays in one piece: it is not empty, neither
/// separator stands in it, it neither begins nor ends with a comma, and it
/// does not end with whitespace.
pub open spec fn plain_written(written: Seq<char>) -> bool {
    &&& written.len() > 0
    &&& forall|j: int| !occurs_at(written, list_separator(), j)
    &&& forall|j: int| !occurs_at(written, pair_separator(), j)
    &&& written[0] != ','
    &&& written.last() != ','
    &&& !whitespace().contains(written.last())
}

/// A value that can be written without quotes: it stays in one piece and
/// has no quote at its ends.
pub open spec fn bare_value(value: Seq<char>) -> bool {
    plain_written(value) && value[0] != '"' && value.last() != '"'
}

/// A value that can be written between quotes: neither separator stands in
/// it, and it neither begins nor ends with a quote.
pub open spec fn plain_value(value: Seq<char>) -> bool {
    &&& forall|j: int| !occurs_at(value, list_separator(), j)
    &&& forall|j: int| !occurs_at(value, pair_separator(), j)
    &&& value.len() > 0 ==> value[0] != '"' && value.last() != '"'
}

/// Parameters that stay in one piece each.
pub open spec fn plain_pairs(pairs: Seq<(Seq<char>, Seq<char>)>) -> bool {
    forall|i: int|
        0 <= i < pairs.len() ==> plain_key(#[trigger] pairs[i].0) && plain_written(pairs[i].1)
}

/// A separator that neither begins nor ends with a quote stands nowhere in a
/// quoted value unless it stands in the value.
pub proof fn lemma_quoted_has_no_match(value: Seq<char>, pat: Seq<char>)
    requires
        pat.len() > 0,
        pat[0] != '"',
        pat.last() != '"',
        forall|j: int| !occurs_at(value, pat, j),
    ensures
        forall|j: int| !occurs_at(quoted(value), pat, j),
{
    let q = quoted(value);
    assert forall|j: int| !occurs_at(q, pat, j) by {
        if occurs_at(q, pat, j) {
            let part = q.subrange(j, j + pat.len());
            assert(part[0] == q[j]);
            assert(part[pat.len() - 1] == q[j + pat.len() - 1]);
            assert(j >= 1);
            assert(j + pat.len() - 1 <= value.len());
            assert(value.subrange(j - 1, j - 1 + pat.len()) =~= part);
            assert(occurs_at(value, pat, j - 1));
        }
    }
}

/// Reading a quoted plain value gives the value.
pub proof fn lemma_quotes_come_off(value: Seq<char>)
    requires
        value.len() > 0 ==> value[0] != '"' && value.last() != '"',
    ensures
        trimmed(quoted(value), quote()) == value,
{
    let q = quoted(value);
    let inner = value + quote();
    assert(quote().contains('"')) by {
        assert(quote()[0] == '"');
    }
    assert(forall|c: char| quote().contains(c) ==> c == '"');
    assert(q.drop_first() =~= inner);
    assert(q[0] == '"');
    assert(trim_start(q, quote()) == trim_start(inner, quote()));
    assert(inner.drop_last() =~= value);
    if value.len() == 0 {
        assert(inner.drop_first() =~= Seq::<char>::empty());
        assert(trim_start(inner, quote()) == trim_start(Seq::<char>::empty(), quote()));
        assert(trim_start(Seq::<char>::empty(), quote()) =~= value);
        assert(trim_end(value, quote()) == value);
    } else {
        assert(inner[0] == value[0]);
        assert(trim_start(inner, quote()) == inner);
        assert(inner.last() == '"');
        assert(trim_end(inner, quote()) == trim_end(value, quote()));
        assert(trim_end(value, quote()) == value);
    }
}

/// A plain value between quotes stays in one piece and is read as the
/// value.
pub proof fn lemma_quoted_value(value: Seq<char>)
    requires
        plain_value(value),
    ensures
        plain_written(quoted(value)),
        trimmed(quoted(value), quote()) == value,
{
    let q = quoted(value);
    lemma_quoted_has_no_match(value, list_separator());
    lemma_quoted_has_no_match(value, pair_separator());
    lemma_quotes_come_off(value);
    assert(q[0] == '"');
    assert(q.last() == '"');
    assert(forall|c: char|
        whitespace().contains(c) ==> c == ' ' || c == '\t' || c == '\n' || c == '\r');
}

/// A bare value is read as it is written.
pub proof fn lemma_bare_value(value: Seq<char>)
    requires
        bare_value(value),
    ensures
        trimmed(value, quote()) == value,
{
    assert(forall|c: char| quote().contains(c) ==> c == '"');
}

/// A plain parameter is read as its key and its value without the quotes.
pub proof fn lemma_parameter_read_back(pair: (Seq<char>, Seq<char>))
    requires
        plain_key(pair.0),
        plain_written(pair.1),
    ensures
        segment_pair(parameter_text(pair)) == Ok::<(Seq<char>, Seq<char>), ParseFault>(
            (pair.0, trimmed(pair.1, quote())),
        ),
{
    let key = pair.0;
    let sep = pair_separator();
    let text = parameter_text(pair);
    assert(whitespace().contains(' ')) by {
        assert(whitespace()[0] == ' ');
    }
    assert forall|j: int| 0 <= j < key.len() implies !occurs_at(text, sep, j) by {
        if occurs_at(text, sep, j) {
            assert(text.subrange(j, j + sep.len())[0] == text[j]);
            assert(text[j] == key[j]);
        }
    }
    lemma_split_step(key, sep, pair.1);
    lemma_split_whole(pair.1, sep);
    assert(split(text, sep) =~= seq![key, pair.1]);
}

/// A segment that goes on after its value with a second separator is
/// rejected, and the token that is reported is what stands between the
/// second separator and the third, or the end.
pub proof fn lemma_segment_with_extra_part(key: Seq<char>, value: Seq<char>, rest: Seq<char>)
    requires
        plain_key(key),
        forall|j: int| !occurs_at(value, pair_separator(), j),
        value.len() > 0 ==> value.last() != ' ' && value.last() != '=',
    ensures
        segment_pair(key + pair_separator() + value + pair_separator() + rest) == Err::<
            (Seq<char>, Seq<char>),
            ParseFault,
        >(ParseFault::UnexpectedToken { token: split(rest, pair_separator())[0] }),
{
    let sep = pair_separator();
    let after_key = value + sep + rest;
    let text = key + sep + after_key;
    assert(text =~= key + sep + value + sep + rest);
    assert(whitespace().contains(' ')) by {
        assert(whitespace()[0] == ' ');
    }
    assert forall|j: int| 0 <= j < key.len() implies !occurs_at(text, sep, j) by {
        if occurs_at(text, sep, j) {
            assert(text.subrange(j, j + 3)[0] == text[j]);
            assert(text[j] == key[j]);
        }
    }
    lemma_split_step(key, sep, after_key);
    assert forall|j: int| 0 <= j < value.len() implies !occurs_at(after_key, sep, j) by {
        if occurs_at(after_key, sep, j) {
            let part = after_key.subrange(j, j + 3);
            if j + 3 <= value.len() {
                assert(value.subrange(j, j + 3) =~= part);
                assert(occurs_at(value, sep, j));
            } else {
                assert(part[value.len() - 1 - j] == after_key[value.len() - 1]);
                assert(after_key[value.len() - 1] == value.last());
            }
        }
    }
    lemma_split_step(value, sep, rest);
    assert(split(rest, sep).len() >= 1);
    assert(split(text, sep)[2] == split(rest, sep)[0]);
}

/// The list separator stands nowhere in a plain parameter.
pub proof fn lemma_parameter_is_one_segment(pair: (Seq<char>, Seq<char>))
    requires
        plain_key(pair.0),
        plain_written(pair.1),
    ensures
        forall|j: int| !occurs_at(parameter_text(pair), list_separator(), j),
{
    let key = pair.0;
    let sep = list_separator();
    let written = pair.1;
    let text = parameter_text(pair);
    let n = key.len() as int;
    let start = n + 3;
    assert(whitespace().contains(' ')) by {
        assert(whitespace()[0] == ' ');
    }
    assert forall|j: int| !occurs_at(text, sep, j) by {
        if occurs_at(text, sep, j) {
            let part = text.subrange(j, j + 3);
            assert(part[0] == text[j]);
            assert(part[1] == text[j + 1]);
            if j < key.len() {
                assert(text[j] == key[j]);
            } else if j < start {
                assert(text[n] == ' ');
                assert(text[n + 1] == '=');
                assert(text[n + 2] == ' ');
                assert(text[n + 3] == written[0]);
            } else {
                assert(written.subrange(j - start, j - start + 3) =~= part);
                assert(occurs_at(written, sep, j - start));
            }
        }
    }
}

/// A list of plain parameters begins with its first key and ends as its
/// last value does.
pub proof fn lemma_list_ends(pairs: Seq<(Seq<char>, Seq<char>)>)
    requires
        pairs.len() > 0,
        plain_pairs(pairs),
    ensures
        parameter_list_text(pairs).len() > 0,
        parameter_list_text(pairs)[0] == pairs[0].0[0],
        parameter_list_text(pairs).last() == pairs.last().1.last(),
    decreases pairs.len(),
{
    assert(plain_key(pairs[0].0));
    let first = parameter_text(pairs[0]);
    assert(first.last() == pairs[0].1.last());
    assert(first[0] == pairs[0].0[0]);
    if pairs.len() > 1 {
        let rest = pairs.drop_first();
        lemma_rest_is_plain(pairs);
        lemma_list_ends(rest);
        assert(rest.last() == pairs.last());
    }
}

/// What follows the first of some plain parameters is plain.
pub proof fn lemma_rest_is_plain(pairs: Seq<(Seq<char>, Seq<char>)>)
    requires
        pairs.len() > 0,
        plain_pairs(pairs),
    ensures
        plain_pairs(pairs.drop_first()),
{
    let rest = pairs.drop_first();
    assert forall|i: int| 0 <= i < rest.len() implies plain_key(#[trigger] rest[i].0)
        && plain_written(rest[i].1) by {
        assert(rest[i] == pairs[i + 1]);
        assert(plain_key(pairs[i + 1].0));
    }
}

/// A list of plain parameters falls into its parameters at the separators.
pub proof fn lemma_list_splits(pairs: Seq<(Seq<char>, Seq<char>)>)
    requires
        pairs.len() > 0,
        plain_pairs(pairs),
    ensures
        split(parameter_list_text(pairs), list_separator()) == pairs.map_values(
            |p: (Seq<char>, Seq<char>)| parameter_text(p),
        ),
    decreases pairs.len(),
{
    let sep = list_separator();
    let first = parameter_text(pairs[0]);
    let render = |p: (Seq<char>, Seq<char>)| parameter_text(p);
    assert(plain_key(pairs[0].0));
    lemma_parameter_is_one_segment(pairs[0]);
    if pairs.len() == 1 {
        lemma_split_whole(first, sep);
        assert(pairs.map_values(render) =~= seq![first]);
    } else {
        let rest = pairs.drop_first();
        let tail = parameter_list_text(rest);
        let whole = first + sep + tail;
        lemma_rest_is_plain(pairs);
        lemma_list_splits(rest);
        assert(whitespace().contains(' ')) by {
            assert(whitespace()[0] == ' ');
        }
        assert(first.last() == pairs[0].1.last());
        assert forall|j: int| 0 <= j < first.len() implies !occurs_at(whole, sep, j) by {
            if occurs_at(whole, sep, j) {
                let part = whole.subrange(j, j + 3);
                if j + 3 <= first.len() {
                    assert(first.subrange(j, j + 3) =~= part);
                    assert(occurs_at(first, sep, j));
                } else {
                    assert(part[first.len() - 1 - j] == whole[first.len() - 1]);
                    assert(whole[first.len() - 1] == first.last());
                }
            }
        }
        lemma_split_step(first, sep, tail);
        assert(pairs.map_values(render) =~= seq![first] + rest.map_values(render));
    }
}

/// Segments that each hold a plain parameter are read as the list of these
/// parameters, each value without its quotes.
pub proof fn lemma_segments_read_back(pairs: Seq<(Seq<char>, Seq<char>)>)
    requires
        plain_pairs(pairs),
    ensures
        segment_pairs(pairs.map_values(|p: (Seq<char>, Seq<char>)| parameter_text(p))) == Ok::<
            Seq<(Seq<char>, Seq<char>)>,
            ParseFault,
        >(read_pairs(pairs)),
    decreases pairs.len(),
{
    let render = |p: (Seq<char>, Seq<char>)| parameter_text(p);
    let segments = pairs.map_values(render);
    if pairs.len() == 0 {
        assert(read_pairs(pairs) =~= Seq::empty());
    } else {
        let front = pairs.drop_last();
        assert forall|i: int| 0 <= i < front.len() implies plain_key(#[trigger] front[i].0)
            && plain_written(front[i].1) by {
            assert(front[i] == pairs[i]);
            assert(plain_key(pairs[i].0));
        }
        assert(plain_pairs(front));
        lemma_segments_read_back(front);
        assert(segments.drop_last() =~= front.map_values(render));
        assert(plain_key(pairs.last().0));
        lemma_parameter_read_back(pairs.last());
        assert(read_pairs(front).push((pairs.last().0, trimmed(pairs.last().1, quote())))
            =~= read_pairs(pairs));
    }
}

/// Tokenizing the directive that was written from a non-empty list of plain
/// parameters gives that list back, each value without its quotes.
pub proof fn lemma_tokenize_directive_text(pairs: Seq<(Seq<char>, Seq<char>)>)
    requires
        pairs.len() > 0,
        plain_pairs(pairs),
    ensures
        tokenized(directive_text(pairs)) == Ok::<Seq<(Seq<char>, Seq<char>)>, ParseFault>(
            read_pairs(pairs),
        ),
{
    let list = parameter_list_text(pairs);
    let raw = directive_text(pairs);
    let ws = whitespace();
    lemma_list_ends(pairs);
    assert(plain_key(pairs[0].0));
    assert(plain_key(pairs.last().0));
    assert(ws.contains(' ')) by {
        assert(ws[0] == ' ');
    }
    assert(forall|c: char| ws.contains(c) ==> c == ' ' || c == '\t' || c == '\n' || c == '\r');
    assert(raw[0] == '(');
    assert(raw.last() == ')');
    assert(trim_start(raw, ws) == raw);
    assert(trim_end(raw, ws) == raw);
    let inner = raw.subrange(1, raw.len() - 1);
    assert(inner =~= seq![' '] + list + seq![' ']);
    let right = list + seq![' '];
    assert(inner.drop_first() =~= right);
    assert(inner[0] == ' ');
    assert(trim_start(inner, ws) == trim_start(right, ws));
    assert(right[0] == list[0]);
    assert(!ws.contains(pairs[0].0[0]));
    assert(trim_start(right, ws) == right);
    assert(right.drop_last() =~= list);
    assert(right.last() == ' ');
    assert(trim_end(right, ws) == trim_end(list, ws));
    assert(trim_end(list, ws) == list);
    assert(directive_body(raw) == list);
    lemma_list_splits(pairs);
    lemma_segments_read_back(pairs);
}

/// Reading the directive that was written from a non-empty list of plain
/// parameters is building the record from that list, each value without
/// its quotes.
pub proof fn lemma_parse_directive_text(name: Seq<char>, pairs: Seq<(Seq<char>, Seq<char>)>)
    requires
        pairs.len() > 0,
        plain_pairs(pairs),
    ensures
        parsed(name, directive_text(pairs)) == synthesized(name, read_pairs(pairs)),
{
    lemma_tokenize_directive_text(pairs);
}

/// The four keys can be read back.
pub proof fn lemma_keys_are_plain()
    ensures
        plain_key("quantity"@),
        plain_key("symbol"@),
        plain_key("singular"@),
        plain_key("plural"@),
{
    reveal_strlit("quantity");
    reveal_strlit("symbol");
    reveal_strlit("singular");
    reveal_strlit("plural");
    assert(forall|c: char|
        whitespace().contains(c) ==> c == ' ' || c == '\t' || c == '\n' || c == '\r');
}

/// Writing a record out as a directive and reading the directive under the
/// record's name gives the record back, provided that no field but the
/// name holds a separator or has a quote at one of its ends.
pub proof fn lemma_round_trip(unit: UnitMetadata)
    requires
        plain_value(unit.quantity),
        plain_value(unit.symbol),
        plain_value(unit.singular),
        plain_value(unit.plural),
    ensures
        parsed(unit.name, unit_directive(unit)) == Ok::<UnitMetadata, ParseFault>(unit),
{
    let written = unit_parameters(unit);
    let pairs = read_pairs(written);
    lemma_keys_are_plain();
    lemma_keys_differ();
    lemma_quoted_value(unit.quantity);
    lemma_quoted_value(unit.symbol);
    lemma_quoted_value(unit.singular);
    lemma_quoted_value(unit.plural);
    lemma_parse_directive_text(unit.name, written);
    assert(pairs[0] == ("quantity"@, unit.quantity) && pairs[1] == ("symbol"@, unit.symbol));
    assert(pairs[2] == ("singular"@, unit.singular) && pairs[3] == ("plural"@, unit.plural));
    lemma_all_known(pairs);
    lemma_last_value(pairs, "quantity"@);
    lemma_last_value(pairs, "symbol"@);
    lemma_last_value(pairs, "singular"@);
    lemma_last_value(pairs, "plural"@);
}

/// A directive that gives `quantity` as a bare value, `symbol` and
/// `singular` between quotes, and no plural, is read as the record with
/// these values and the inferred plural.
pub proof fn lemma_plural_is_inferred(
    name: Seq<char>,
    quantity: Seq<char>,
    symbol: Seq<char>,
    singular: Seq<char>,
)
    requires
        bare_value(quantity),
        plain_value(symbol),
        plain_value(singular),
    ensures
        parsed(
            name,
            directive_text(
                seq![
                    ("quantity"@, quantity),
                    ("symbol"@, quoted(symbol)),
                    ("singular"@, quoted(singular)),
                ],
            ),
        ) == Ok::<UnitMetadata, ParseFault>(
            UnitMetadata { name, quantity, symbol, singular, plural: inferred_plural(singular) },
        ),
{
    let written = seq![
        ("quantity"@, quantity),
        ("symbol"@, quoted(symbol)),
        ("singular"@, quoted(singular)),
    ];
    let pairs = read_pairs(written);
    lemma_keys_are_plain();
    lemma_keys_differ();
    lemma_bare_value(quantity);
    lemma_quoted_value(symbol);
    lemma_quoted_value(singular);
    lemma_parse_directive_text(name, written);
    assert(pairs[0] == ("quantity"@, quantity) && pairs[1] == ("symbol"@, symbol));
    assert(pairs[2] == ("singular"@, singular));
    lemma_all_known(pairs);
    lemma_last_value(pairs, "quantity"@);
    lemma_last_value(pairs, "symbol"@);
    lemma_last_value(pairs, "singular"@);
    lemma_last_value(pairs, "plural"@);
}

/// Whether a value can be written between quotes and read back.
pub fn is_plain_value(value: &str) -> (r: bool)
    ensures
        r == plain_value(value@),
{
    proof {
        reveal_strlit(" , ");
        reveal_strlit(" = ");
        assert(" , "@ =~= list_separator());
        assert(" = "@ =~= pair_separator());
    }
    match find(value, " , ") {
        Some(_) => {
            return false;
        },
        None => {},
    }
    match find(value, " = ") {
        Some(_) => {
            return false;
        },
        None => {},
    }
    let n: usize = value.unicode_len();
    if n == 0 {
        return true;
    }
    value.get_char(0) != '"' && value.get_char(n - 1) != '"'
}

/// Appends one parameter, its value quoted.
fn append_parameter(text: &mut String, key: &str, value: &str)
    ensures
        final(text)@ == old(text)@ + parameter_text((key@, quoted(value@))),
{
    proof {
        reveal_strlit(" = ");
        reveal_strlit("\"");
        assert(" = "@ =~= pair_separator());
        assert("\""@ =~= quote());
    }
    text.append(key);
    text.append(" = ");
    text.append("\"");
    text.append(value);
    text.append("\"");
    assert(text@ =~= old(text)@ + parameter_text((key@, quoted(value@))));
}

impl UnitProperties {
    /// Whether the record comes back from the directive that `to_directive`
    /// writes: whether its quantity, symbol, singular and plural are plain.
    pub fn is_plain(&self) -> (r: bool)
        ensures
            r == (plain_value(self@.quantity) && plain_value(self@.symbol) && plain_value(
                self@.singular,
            ) && plain_value(self@.plural)),
            r == (parsed(self@.name, unit_directive(self@)) == Ok::<UnitMetadata, ParseFault>(
                self@,
            )),
    {
        let r: bool = is_plain_value(self.quantity.as_str()) && is_plain_value(
            self.symbol.as_str(),
        ) && is_plain_value(self.singular.as_str()) && is_plain_value(self.plural.as_str());
        proof {
            if r {
                lemma_round_trip(self@);
            }
            if parsed(self@.name, unit_directive(self@)) == Ok::<UnitMetadata, ParseFault>(self@) {
                lemma_parsed_fields_are_plain(self@.name, unit_directive(self@));
            }
        }
        r
    }

    /// Writes the record out as a directive with all four parameters, each
    /// value quoted.
    pub fn to_directive(&self) -> (text: String)
        ensures
            text@ == unit_directive(self@),
    {
        proof {
            reveal_strlit("( ");
            reveal_strlit(" , ");
            reveal_strlit(" )");
            assert("( "@ =~= seq!['(', ' ']);
            assert(" , "@ =~= list_separator());
            assert(" )"@ =~= seq![' ', ')']);
        }
        let ghost pairs = unit_parameters(self@);
        let ghost after_one = pairs.drop_first();
        let ghost after_two = after_one.drop_first();
        let ghost after_three = after_two.drop_first();
        let mut text: String = String::from_str("( ");
        append_parameter(&mut text, "quantity", self.quantity.as_str());
        text.append(" , ");
        append_parameter(&mut text, "symbol", self.symbol.as_str());
        text.append(" , ");
        append_parameter(&mut text, "singular", self.singular.as_str());
        text.append(" , ");
        append_parameter(&mut text, "plural", self.plural.as_str());
        text.append(" )");
        proof {
            assert(parameter_list_text(after_three) == parameter_text(pairs[3]));
            assert(parameter_list_text(after_two) == parameter_text(pairs[2]) + list_separator()
                + parameter_list_text(after_three));
            assert(parameter_list_text(after_one) == parameter_text(pairs[1]) + list_separator()
                + parameter_list_text(after_two));
            assert(parameter_list_text(pairs) == parameter_text(pairs[0]) + list_separator()
                + parameter_list_text(after_one));
            assert(text@ =~= unit_directive(self@));
        }
        text
    }
}

} // verus!
