//! Cutting a directive into its `key = value` parameters.

use vstd::prelude::*;
use vstd::string::*;
use crate::error::{ParseError, ParseFault};
use crate::text::{lemma_split_whole, occurs_at, split, split_on, texts, trim, trimmed};

verus! {

/// One parameter of a directive.
#[derive(Debug, PartialEq, Eq)]
pub struct ParameterPair {
    pub key: String,
    pub value: String,
}

impl View for ParameterPair {
    type V = (Seq<char>, Seq<char>);

    open spec fn view(&self) -> (Seq<char>, Seq<char>) {
        (self.key@, self.value@)
    }
}

/// The models of a list of parameters.
pub open spec fn pair_models(v: Seq<ParameterPair>) -> Seq<(Seq<char>, Seq<char>)> {
    v.map_values(|p: ParameterPair| p@)
}

/// The characters that may surround the delimiters of a directive.
pub open spec fn whitespace() -> Seq<char> {
    seq![' ', '\t', '\n', '\r']
}

/// The separator between two parameters.
pub open spec fn list_separator() -> Seq<char> {
    seq![' ', ',', ' ']
}

/// The separator between a key and its value.
pub open spec fn pair_separator() -> Seq<char> {
    seq![' ', '=', ' ']
}

/// The character that may enclose a value.
pub open spec fn quote() -> Seq<char> {
    seq!['"']
}

/// What stands between the delimiters of a directive: the text without the
/// whitespace around it, without its first and its last character, and
/// without the whitespace inside these two.
pub open spec fn directive_body(raw: Seq<char>) -> Seq<char> {
    let outer = trimmed(raw, whitespace());
    if outer.len() < 2 {
        Seq::empty()
    } else {
        trimmed(outer.subrange(1, outer.len() - 1), whitespace())
    }
}

/// The parameter that one segment of a directive holds.
pub open spec fn segment_pair(segment: Seq<char>) -> Result<(Seq<char>, Seq<char>), ParseFault> {
    let parts = split(segment, pair_separator());
    if parts.len() < 2 {
        Err(ParseFault::ExpectedStringIdent { after: seq!['='] })
    } else if parts.len() > 2 {
        Err(ParseFault::UnexpectedToken { token: parts[2] })
    } else {
        Ok((parts[0], trimmed(parts[1], quote())))
    }
}

/// The parameters of all segments in their order, or the fault of the first
/// segment that has one.
pub open spec fn segment_pairs(segments: Seq<Seq<char>>) -> Result<
    Seq<(Seq<char>, Seq<char>)>,
    ParseFault,
>
    decreases segments.len(),
{
    if segments.len() == 0 {
        Ok(Seq::empty())
    } else {
        match segment_pairs(segments.drop_last()) {
            Err(fault) => Err(fault),
            Ok(pairs) => match segment_pair(segments.last()) {
                Err(fault) => Err(fault),
                Ok(pair) => Ok(pairs.push(pair)),
            },
        }
    }
}

/// The parameters of a directive.
pub open spec fn tokenized(raw: Seq<char>) -> Result<Seq<(Seq<char>, Seq<char>)>, ParseFault> {
    segment_pairs(split(directive_body(raw), list_separator()))
}

/// A fault among the first `k` segments is the fault of the whole list.
pub proof fn lemma_fault_stays(segments: Seq<Seq<char>>, k: int)
    requires
        0 <= k <= segments.len(),
        segment_pairs(segments.take(k)) is Err,
    ensures
        segment_pairs(segments) == segment_pairs(segments.take(k)),
    decreases segments.len() - k,
{
    if k == segments.len() {
        assert(segments.take(k) =~= segments);
    } else {
        assert(segments.drop_last().take(k) =~= segments.take(k));
        lemma_fault_stays(segments.drop_last(), k);
    }
}

/// A segment in which the separator of key and value stands nowhere is
/// rejected for want of a value.
pub proof fn lemma_segment_without_separator(segment: Seq<char>)
    requires
        forall|j: int| !occurs_at(segment, pair_separator(), j),
    ensures
        segment_pair(segment) == Err::<(Seq<char>, Seq<char>), ParseFault>(
            ParseFault::ExpectedStringIdent { after: seq!['='] },
        ),
{
    lemma_split_whole(segment, pair_separator());
}

/// Segments that each hold a parameter give a list of parameters.
pub proof fn lemma_sound_segments(segments: Seq<Seq<char>>)
    requires
        forall|j: int| 0 <= j < segments.len() ==> segment_pair(#[trigger] segments[j]) is Ok,
    ensures
        segment_pairs(segments) is Ok,
    decreases segments.len(),
{
    if segments.len() > 0 {
        let front = segments.drop_last();
        assert forall|j: int| 0 <= j < front.len() implies segment_pair(
            #[trigger] front[j],
        ) is Ok by {
            assert(front[j] == segments[j]);
        }
        lemma_sound_segments(front);
        assert(segment_pair(segments[segments.len() - 1]) is Ok);
    }
}

/// The first segment that holds no parameter decides the fault of the list.
pub proof fn lemma_first_fault(segments: Seq<Seq<char>>, i: int)
    requires
        0 <= i < segments.len(),
        segment_pair(segments[i]) is Err,
        forall|j: int| 0 <= j < i ==> segment_pair(#[trigger] segments[j]) is Ok,
    ensures
        segment_pairs(segments) == Err::<Seq<(Seq<char>, Seq<char>)>, ParseFault>(
            segment_pair(segments[i])->Err_0,
        ),
{
    let front = segments.take(i);
    let upto = segments.take(i + 1);
    assert forall|j: int| 0 <= j < front.len() implies segment_pair(#[trigger] front[j]) is Ok by {
        assert(front[j] == segments[j]);
    }
    lemma_sound_segments(front);
    assert(upto.drop_last() =~= front);
    assert(upto.last() == segments[i]);
    assert(segment_pairs(upto) is Err);
    lemma_fault_stays(segments, i + 1);
}

/// Removes the delimiters of a directive and the whitespace around them.
pub fn strip_delimiters<'a>(raw: &'a str) -> (body: &'a str)
    ensures
        body@ == directive_body(raw@),
{
    let spaces: &str = " \t\n\r";
    proof {
        reveal_strlit(" \t\n\r");
        assert(spaces@ =~= whitespace());
    }
    let outer: &str = trim(raw, spaces);
    let n: usize = outer.unicode_len();
    if n < 2 {
        outer.substring_char(0, 0)
    } else {
        trim(outer.substring_char(1, n - 1), spaces)
    }
}

/// Reads one segment as `key = value`.
pub fn parse_segment(segment: &str) -> (r: Result<ParameterPair, ParseError>)
    ensures
        match r {
            Ok(pair) => segment_pair(segment@) == Ok::<(Seq<char>, Seq<char>), ParseFault>(pair@),
            Err(e) => segment_pair(segment@) == Err::<(Seq<char>, Seq<char>), ParseFault>(e@),
        },
{
    let separator: &str = " = ";
    let equals: &str = "=";
    let quotes: &str = "\"";
    proof {
        reveal_strlit(" = ");
        reveal_strlit("=");
        reveal_strlit("\"");
        assert(separator@ =~= pair_separator());
        assert(equals@ =~= seq!['=']);
        assert(quotes@ =~= quote());
    }
    let parts: Vec<String> = split_on(segment, separator);
    if parts.len() < 2 {
        return Err(ParseError::ExpectedStringIdent { after: equals.to_owned() });
    }
    if parts.len() > 2 {
        return Err(ParseError::UnexpectedToken { token: parts[2].clone() });
    }
    let value: String = trim(parts[1].as_str(), quotes).to_owned();
    Ok(ParameterPair { key: parts[0].clone(), value })
}

/// Cuts a directive into its parameters. The first segment that is not of
/// the form `key = value` decides the error.
pub fn tokenize(raw: &str) -> (r: Result<Vec<ParameterPair>, ParseError>)
    ensures
        match r {
            Ok(pairs) => tokenized(raw@) == Ok::<Seq<(Seq<char>, Seq<char>)>, ParseFault>(
                pair_models(pairs@),
            ),
            Err(e) => tokenized(raw@) == Err::<Seq<(Seq<char>, Seq<char>)>, ParseFault>(e@),
        },
{
    let separator: &str = " , ";
    proof {
        reveal_strlit(" , ");
        assert(separator@ =~= list_separator());
    }
    let body: &str = strip_delimiters(raw);
    let segments: Vec<String> = split_on(body, separator);
    let ghost all = texts(segments@);
    let mut pairs: Vec<ParameterPair> = Vec::new();
    let mut k: usize = 0;
    assert(all.take(0) =~= Seq::empty());
    assert(pair_models(pairs@) =~= Seq::empty());
    while k < segments.len()
        invariant
            k <= segments.len(),
            all == texts(segments@),
            all == split(directive_body(raw@), list_separator()),
            segment_pairs(all.take(k as int)) == Ok::<Seq<(Seq<char>, Seq<char>)>, ParseFault>(
                pair_models(pairs@),
            ),
        decreases segments.len() - k,
    {
        proof {
            assert(all.take(k + 1).drop_last() =~= all.take(k as int));
            assert(all.take(k + 1).last() == segments@[k as int]@);
        }
        let ghost before = pairs@;
        match parse_segment(segments[k].as_str()) {
            Err(e) => {
                proof {
                    assert(segment_pairs(all.take(k + 1)) is Err);
                    lemma_fault_stays(all, k + 1);
                }
                return Err(e);
            },
            Ok(pair) => {
                pairs.push(pair);
                assert(pair_models(pairs@) =~= pair_models(before).push(pair@));
            },
        }
        k += 1;
    }
    assert(all.take(k as int) =~= all);
    Ok(pairs)
}

} // verus!
