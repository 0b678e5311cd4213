use vstd::prelude::*;
use crate::model::{default_match, Match, MatchResult, MatchType, MatchView, Season, SeasonView};
use crate::text::{label_has_num, label_num, parse_label_num, str_eq, trim_of, trimmed};
use crate::time::{parse_timestamp, ts_of, ts_valid};

verus! {

/// One node of the untyped hierarchical document tree.
pub enum Node {
    Mapping(Vec<(Node, Node)>),
    Text(String),
    Number(i64),
    Sequence(Vec<Node>),
}

/// Why mapping a document failed.
#[derive(PartialEq, Eq, Structural, Clone, Copy, Debug)]
pub enum ParseError {
    /// A top-level entry is not a single `(label, mapping)` pair.
    MalformedSeason,
    /// A season label carries no parseable integer.
    InvalidSeasonLabel,
    /// A `datetime` field does not spell a valid timestamp.
    InvalidTimestamp,
}

/// One tolerant field update: a recognized key changes its field, an
/// unrecognized key or enum value changes nothing, and only a malformed
/// `datetime` value is fatal.
pub open spec fn field_step(m: MatchView, key: Seq<char>, value: Seq<char>) -> Result<
    MatchView,
    ParseError,
> {
    if key == "deck"@ {
        Ok(MatchView { deck: trim_of(value), ..m })
    } else if key == "opponent"@ {
        Ok(MatchView { opponent: trim_of(value), ..m })
    } else if key == "result"@ {
        if value == "Win"@ {
            Ok(MatchView { result: MatchResult::Win, ..m })
        } else if value == "Loss"@ {
            Ok(MatchView { result: MatchResult::Loss, ..m })
        } else {
            Ok(m)
        }
    } else if key == "type"@ {
        if value == "Ranked"@ {
            Ok(MatchView { kind: MatchType::Ranked, ..m })
        } else if value == "Casual"@ {
            Ok(MatchView { kind: MatchType::Casual, ..m })
        } else if value == "Friendly"@ {
            Ok(MatchView { kind: MatchType::Friendly, ..m })
        } else {
            Ok(m)
        }
    } else if key == "datetime"@ {
        if ts_valid(value) {
            Ok(MatchView { datetime: Some(ts_of(value)), ..m })
        } else {
            Err(ParseError::InvalidTimestamp)
        }
    } else {
        Ok(m)
    }
}

/// One field entry: only a `(string, string)` pair updates the match.
pub open spec fn entry_step(m: MatchView, e: (Node, Node)) -> Result<MatchView, ParseError> {
    match e {
        (Node::Text(key), Node::Text(value)) => field_step(m, key@, value@),
        _ => Ok(m),
    }
}

/// The match that a field mapping leaves after every update, starting
/// from `m0`.
pub open spec fn fields_result(m0: MatchView, entries: Seq<(Node, Node)>) -> Result<
    MatchView,
    ParseError,
>
    decreases entries.len(),
{
    if entries.len() == 0 {
        Ok(m0)
    } else {
        match fields_result(m0, entries.drop_last()) {
            Ok(m) => entry_step(m, entries.last()),
            Err(e) => Err(e),
        }
    }
}

proof fn lemma_fields_result_err(m0: MatchView, entries: Seq<(Node, Node)>, i: int)
    requires
        0 <= i <= entries.len(),
        fields_result(m0, entries.take(i)) is Err,
    ensures
        fields_result(m0, entries) == fields_result(m0, entries.take(i)),
    decreases entries.len() - i,
{
    if i == entries.len() {
        assert(entries.take(i) =~= entries);
    } else {
        assert(entries.take(i + 1).drop_last() =~= entries.take(i));
        lemma_fields_result_err(m0, entries, i + 1);
    }
}

/// The matches of a season's inner mapping: each `(number, mapping)`
/// entry yields one match, an entry of any other shape is skipped.
pub open spec fn matches_result(entries: Seq<(Node, Node)>) -> Result<Seq<MatchView>, ParseError>
    decreases entries.len(),
{
    if entries.len() == 0 {
        Ok(Seq::empty())
    } else {
        match matches_result(entries.drop_last()) {
            Ok(ms) => match entries.last() {
                (Node::Number(id), Node::Mapping(content)) => {
                    match fields_result(default_match(id as int), content@) {
                        Ok(m) => Ok(ms.push(m)),
                        Err(e) => Err(e),
                    }
                },
                _ => Ok(ms),
            },
            Err(e) => Err(e),
        }
    }
}

proof fn lemma_matches_result_err(entries: Seq<(Node, Node)>, i: int)
    requires
        0 <= i <= entries.len(),
        matches_result(entries.take(i)) is Err,
    ensures
        matches_result(entries) == matches_result(entries.take(i)),
    decreases entries.len() - i,
{
    if i == entries.len() {
        assert(entries.take(i) =~= entries);
    } else {
        assert(entries.take(i + 1).drop_last() =~= entries.take(i));
        lemma_matches_result_err(entries, i + 1);
    }
}

/// One season from one top-level document entry: a single
/// `(label, mapping)` pair, a numbered label, and the mapped matches.
pub open spec fn season_result(entries: Seq<(Node, Node)>) -> Result<SeasonView, ParseError> {
    if entries.len() != 1 {
        Err(ParseError::MalformedSeason)
    } else {
        match entries[0] {
            (Node::Text(name), Node::Mapping(inner)) => {
                if !label_has_num(name@) {
                    Err(ParseError::InvalidSeasonLabel)
                } else {
                    match matches_result(inner@) {
                        Ok(ms) => Ok(SeasonView { num: label_num(name@), matches: ms }),
                        Err(e) => Err(e),
                    }
                }
            },
            _ => Err(ParseError::MalformedSeason),
        }
    }
}

/// The seasons of a whole document: one per top-level mapping node,
/// all-or-nothing across nodes.
pub open spec fn document_result(docs: Seq<Node>) -> Result<Seq<SeasonView>, ParseError>
    decreases docs.len(),
{
    if docs.len() == 0 {
        Ok(Seq::empty())
    } else {
        match document_result(docs.drop_last()) {
            Ok(ss) => match docs.last() {
                Node::Mapping(entries) => match season_result(entries@) {
                    Ok(s) => Ok(ss.push(s)),
                    Err(e) => Err(e),
                },
                _ => Err(ParseError::MalformedSeason),
            },
            Err(e) => Err(e),
        }
    }
}

proof fn lemma_document_result_err(docs: Seq<Node>, i: int)
    requires
        0 <= i <= docs.len(),
        document_result(docs.take(i)) is Err,
    ensures
        document_result(docs) == document_result(docs.take(i)),
    decreases docs.len() - i,
{
    if i == docs.len() {
        assert(docs.take(i) =~= docs);
    } else {
        assert(docs.take(i + 1).drop_last() =~= docs.take(i));
        lemma_document_result_err(docs, i + 1);
    }
}

/// Builds one match from its field mapping, starting from defaults and
/// applying the recognized fields in document order.
pub fn parse_match(id: i64, entries: &Vec<(Node, Node)>) -> (r: Result<Match, ParseError>)
    ensures
        match r {
            Ok(m) => fields_result(default_match(id as int), entries@) == Ok::<MatchView, ParseError>(m@),
            Err(e) => fields_result(default_match(id as int), entries@) == Err::<
                MatchView,
                ParseError,
            >(e),
        },
{
    let mut m = Match::new(id);
    let n = entries.len();
    let mut i: usize = 0;
    while i < n
        invariant
            n == entries@.len(),
            i <= n,
            fields_result(default_match(id as int), entries@.take(i as int)) == Ok::<MatchView, ParseError>(m@),
        decreases n - i,
    {
        proof {
            assert(entries@.take(i as int + 1).drop_last() =~= entries@.take(i as int));
            assert(entries@.take(i as int + 1).last() == entries@[i as int]);
        }
        let e = &entries[i];
        match e {
            (Node::Text(key), Node::Text(value)) => {
                if str_eq(key.as_str(), "deck") {
                    m.deck = trimmed(value.as_str());
                } else if str_eq(key.as_str(), "opponent") {
                    m.opponent = trimmed(value.as_str());
                } else if str_eq(key.as_str(), "result") {
                    if str_eq(value.as_str(), "Win") {
                        m.result = MatchResult::Win;
                    } else if str_eq(value.as_str(), "Loss") {
                        m.result = MatchResult::Loss;
                    }
                } else if str_eq(key.as_str(), "type") {
                    if str_eq(value.as_str(), "Ranked") {
                        m.kind = MatchType::Ranked;
                    } else if str_eq(value.as_str(), "Casual") {
                        m.kind = MatchType::Casual;
                    } else if str_eq(value.as_str(), "Friendly") {
                        m.kind = MatchType::Friendly;
                    }
                } else if str_eq(key.as_str(), "datetime") {
                    match parse_timestamp(value.as_str()) {
                        Some(t) => {
                            m.datetime = Some(t);
                        },
                        None => {
                            proof {
                                lemma_fields_result_err(
                                    default_match(id as int),
                                    entries@,
                                    i as int + 1,
                                );
                            }
                            return Err(ParseError::InvalidTimestamp);
                        },
                    }
                }
            },
            _ => {},
        }
        i = i + 1;
    }
    proof {
        assert(entries@.take(n as int) =~= entries@);
    }
    Ok(m)
}

/// Maps one top-level document entry to its season.
pub fn parse_season(entries: &Vec<(Node, Node)>) -> (r: Result<Season, ParseError>)
    ensures
        match r {
            Ok(s) => season_result(entries@) == Ok::<SeasonView, ParseError>(s@),
            Err(e) => season_result(entries@) == Err::<SeasonView, ParseError>(e),
        },
{
    if entries.len() != 1 {
        return Err(ParseError::MalformedSeason);
    }
    let e = &entries[0];
    match e {
        (Node::Text(name), Node::Mapping(inner)) => {
            let num: i64 = match parse_label_num(name.as_str()) {
                Some(v) => v,
                None => {
                    return Err(ParseError::InvalidSeasonLabel);
                },
            };
            proof {
                assert(entries@[0] == (Node::Text(*name), Node::Mapping(*inner)));
            }
            let mut ms: Vec<Match> = Vec::new();
            let n = inner.len();
            let mut i: usize = 0;
            proof {
                assert(inner@.take(0) =~= Seq::<(Node, Node)>::empty());
                assert(ms@.map_values(|mm: Match| mm@) =~= Seq::<MatchView>::empty());
            }
            while i < n
                invariant
                    entries@.len() == 1,
                    entries@[0] == (Node::Text(*name), Node::Mapping(*inner)),
                    label_has_num(name@),
                    n == inner@.len(),
                    i <= n,
                    matches_result(inner@.take(i as int)) == Ok::<Seq<MatchView>, ParseError>(
                        ms@.map_values(|mm: Match| mm@),
                    ),
                decreases n - i,
            {
                proof {
                    assert(inner@.take(i as int + 1).drop_last() =~= inner@.take(i as int));
                    assert(inner@.take(i as int + 1).last() == inner@[i as int]);
                }
                let entry = &inner[i];
                match entry {
                    (Node::Number(mid), Node::Mapping(content)) => {
                        match parse_match(*mid, content) {
                            Ok(mat) => {
                                let ghost mv = mat@;
                                let ghost old_ms = ms@;
                                ms.push(mat);
                                proof {
                                    assert(ms@.map_values(|mm: Match| mm@) =~= old_ms.map_values(
                                        |mm: Match| mm@,
                                    ).push(mv));
                                }
                            },
                            Err(err) => {
                                proof {
                                    lemma_matches_result_err(inner@, i as int + 1);
                                }
                                return Err(err);
                            },
                        }
                    },
                    _ => {},
                }
                i = i + 1;
            }
            proof {
                assert(inner@.take(n as int) =~= inner@);
            }
            Ok(Season::new(num, ms))
        },
        _ => Err(ParseError::MalformedSeason),
    }
}

/// Maps a whole document to its seasons: all-or-nothing across the
/// top-level entries, tolerant inside each match.
pub fn map_document(docs: &Vec<Node>) -> (r: Result<Vec<Season>, ParseError>)
    ensures
        match r {
            Ok(ss) => document_result(docs@) == Ok::<Seq<SeasonView>, ParseError>(ss@.map_values(|s: Season| s@)),
            Err(e) => document_result(docs@) == Err::<Seq<SeasonView>, ParseError>(e),
        },
{
    let mut out: Vec<Season> = Vec::new();
    let n = docs.len();
    let mut i: usize = 0;
    proof {
        assert(docs@.take(0) =~= Seq::<Node>::empty());
        assert(out@.map_values(|s: Season| s@) =~= Seq::<SeasonView>::empty());
    }
    while i < n
        invariant
            n == docs@.len(),
            i <= n,
            document_result(docs@.take(i as int)) == Ok::<Seq<SeasonView>, ParseError>(out@.map_values(|s: Season| s@)),
        decreases n - i,
    {
        proof {
            assert(docs@.take(i as int + 1).drop_last() =~= docs@.take(i as int));
            assert(docs@.take(i as int + 1).last() == docs@[i as int]);
        }
        let d = &docs[i];
        match d {
            Node::Mapping(entries) => {
                match parse_season(entries) {
                    Ok(s) => {
                        let ghost sv = s@;
                        let ghost old_out = out@;
                        out.push(s);
                        proof {
                            assert(out@.map_values(|ss: Season| ss@) =~= old_out.map_values(
                                |ss: Season| ss@,
                            ).push(sv));
                        }
                    },
                    Err(err) => {
                        proof {
                            lemma_document_result_err(docs@, i as int + 1);
                        }
                        return Err(err);
                    },
                }
            },
            _ => {
                proof {
                    lemma_document_result_err(docs@, i as int + 1);
                }
                return Err(ParseError::MalformedSeason);
            },
        }
        i = i + 1;
    }
    proof {
        assert(docs@.take(n as int) =~= docs@);
    }
    Ok(out)
}

} // verus!
