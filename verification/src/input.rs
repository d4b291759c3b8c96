//! Reading a graph from the text of a DIMACS instance: a line `p edge N M`
//! announces `N` vertices, and a line `e U V` an edge between the vertices
//! `U` and `V`, which are counted from one. Every other line is skipped.

use crate::graph::adj_list::AdjList;
use vstd::prelude::*;

verus! {

/// Why a text could not be read.
#[derive(Debug, PartialEq, Eq)]
pub enum ParseError {
    /// A number on the line `line`, counted from zero, is not a number that
    /// the machine can hold.
    InvalidNumber { line: usize },
}

/// The byte that ends a line.
pub open spec fn is_newline(byte: u8) -> bool {
    byte == 10
}

/// The bytes that separate words: the blank, and the control characters from
/// the tabulator to the carriage return.
pub open spec fn is_space(byte: u8) -> bool {
    byte == 32 || (9 <= byte <= 13)
}

/// The predicate `is_newline` or the predicate `is_space`.
pub open spec fn separator(by_line: bool) -> spec_fn(u8) -> bool {
    if by_line {
        |byte: u8| is_newline(byte)
    } else {
        |byte: u8| is_space(byte)
    }
}

/// The pieces of `s` between its separators, empty ones too.
pub open spec fn split(s: Seq<u8>, by_line: bool) -> Seq<Seq<u8>>
    decreases s.len(),
{
    if s.len() == 0 {
        seq![Seq::<u8>::empty()]
    } else {
        let pieces = split(s.drop_last(), by_line);
        if separator(by_line)(s.last()) {
            pieces.push(Seq::empty())
        } else {
            pieces.update(pieces.len() - 1, pieces.last().push(s.last()))
        }
    }
}

/// The pieces of `pieces` that are not empty, in their order.
pub open spec fn nonempty(pieces: Seq<Seq<u8>>) -> Seq<Seq<u8>>
    decreases pieces.len(),
{
    if pieces.len() == 0 {
        Seq::empty()
    } else if pieces.last().len() > 0 {
        nonempty(pieces.drop_last()).push(pieces.last())
    } else {
        nonempty(pieces.drop_last())
    }
}

/// The words of a line.
pub open spec fn words(line: Seq<u8>) -> Seq<Seq<u8>> {
    nonempty(split(line, false))
}

/// The lines of a text.
pub open spec fn lines(text: Seq<u8>) -> Seq<Seq<u8>> {
    split(text, true)
}

/// The number that the decimal digits `digits` write.
pub open spec fn decimal_value(digits: Seq<u8>) -> nat
    decreases digits.len(),
{
    if digits.len() == 0 {
        0
    } else {
        decimal_value(digits.drop_last()) * 10 + (digits.last() - 48) as nat
    }
}

/// The digits of a word: the word without the plus sign that may lead it.
pub open spec fn digits_of(word: Seq<u8>) -> Seq<u8> {
    if word.len() > 0 && word[0] == 43 {
        word.skip(1)
    } else {
        word
    }
}

/// A plus sign or none, and then one decimal digit or more.
pub open spec fn is_numeral(word: Seq<u8>) -> bool {
    &&& digits_of(word).len() > 0
    &&& forall|i: int| 0 <= i < digits_of(word).len() ==> 48 <= (#[trigger] digits_of(word)[i]) <= 57
}

/// The number that `word` writes, if it writes one that the machine can
/// hold.
pub open spec fn number_of(word: Seq<u8>) -> Option<usize> {
    if is_numeral(word) && decimal_value(digits_of(word)) <= usize::MAX {
        Some(decimal_value(digits_of(word)) as usize)
    } else {
        None
    }
}

/// The lists of a graph after the edge between `u` and `v` was added, which
/// changes nothing where one of the two is no vertex or the two are one.
pub open spec fn with_edge_added(adj: Seq<Seq<usize>>, u: int, v: int) -> Seq<Seq<usize>> {
    if 0 <= u < adj.len() && 0 <= v < adj.len() && u != v {
        adj.update(u, adj[u].push(v as usize)).update(v, adj[v].push(u as usize))
    } else {
        adj
    }
}

/// What a line with the words `line` makes of the graph read so far, which
/// there is none of before the first line that announces the vertices.
pub open spec fn after_line(
    graph: Option<Seq<Seq<usize>>>,
    line: Seq<Seq<u8>>,
    index: usize,
) -> Result<Option<Seq<Seq<usize>>>, ParseError> {
    if line.len() == 0 {
        Ok(graph)
    } else if line[0] == seq![112u8] {
        if line.len() > 2 {
            match number_of(line[2]) {
                Some(n) => Ok(Some(Seq::new(n as nat, |i: int| Seq::<usize>::empty()))),
                None => Err(ParseError::InvalidNumber { line: index }),
            }
        } else {
            Ok(graph)
        }
    } else if line[0] == seq![101u8] {
        if line.len() > 2 && graph is Some {
            match (number_of(line[1]), number_of(line[2])) {
                (Some(u), Some(v)) => Ok(Some(with_edge_added(graph->Some_0, u - 1, v - 1))),
                _ => Err(ParseError::InvalidNumber { line: index }),
            }
        } else {
            Ok(graph)
        }
    } else {
        Ok(graph)
    }
}

/// What the first `upto` lines make of the graph.
pub open spec fn parsed_upto(all: Seq<Seq<u8>>, upto: int) -> Result<
    Option<Seq<Seq<usize>>>,
    ParseError,
>
    decreases upto,
{
    if upto <= 0 {
        Ok(None)
    } else {
        match parsed_upto(all, upto - 1) {
            Ok(graph) => after_line(graph, words(all[upto - 1]), (upto - 1) as usize),
            Err(error) => Err(error),
        }
    }
}

/// The graph that a text describes: none where no line announces the
/// vertices, and an error where a number that is needed is none.
pub open spec fn parsed(text: Seq<u8>) -> Result<Option<Seq<Seq<usize>>>, ParseError> {
    parsed_upto(lines(text), lines(text).len() as int)
}

/// The pieces held in vectors, as sequences of bytes.
pub open spec fn pieces_of(pieces: Seq<Vec<u8>>) -> Seq<Seq<u8>> {
    Seq::new(pieces.len(), |i: int| pieces[i]@)
}

/// An error ends the reading: later lines do not change it.
pub proof fn lemma_error_ends_reading(all: Seq<Seq<u8>>, at: int, upto: int)
    requires
        0 < at <= upto,
        parsed_upto(all, at) is Err,
    ensures
        parsed_upto(all, upto) == parsed_upto(all, at),
    decreases upto,
{
    if at < upto {
        lemma_error_ends_reading(all, at, upto - 1);
    }
}

/// A number with more digits is no smaller.
pub proof fn lemma_decimal_value_grows(digits: Seq<u8>, k: int)
    requires
        0 <= k <= digits.len(),
        forall|i: int| 0 <= i < digits.len() ==> 48 <= (#[trigger] digits[i]) <= 57,
    ensures
        decimal_value(digits.take(k)) <= decimal_value(digits),
    decreases digits.len(),
{
    if k < digits.len() {
        let shorter = digits.drop_last();
        assert(shorter.take(k) =~= digits.take(k));
        lemma_decimal_value_grows(shorter, k);
        assert(digits[digits.len() - 1] >= 48);
    } else {
        assert(digits.take(k) =~= digits);
    }
}

/// Cuts `bytes` into its pieces: into lines at the end of each line, or into
/// the stretches between any two of the bytes that separate words.
pub fn split_bytes(bytes: &[u8], by_line: bool) -> (pieces: Vec<Vec<u8>>)
    ensures
        pieces_of(pieces@) == split(bytes@, by_line),
{
    let mut pieces: Vec<Vec<u8>> = Vec::new();
    let mut current: Vec<u8> = Vec::new();
    let mut i: usize = 0;
    assert(pieces_of(pieces@).push(current@) =~= split(bytes@.take(0), by_line));
    while i < bytes.len()
        invariant
            i <= bytes@.len(),
            pieces_of(pieces@).push(current@) == split(bytes@.take(i as int), by_line),
        decreases bytes@.len() - i,
    {
        let byte = bytes[i];
        let ghost before = pieces_of(pieces@).push(current@);
        assert(bytes@.take(i + 1).drop_last() =~= bytes@.take(i as int));
        let separates = if by_line {
            byte == 10
        } else {
            byte == 32 || (9 <= byte && byte <= 13)
        };
        assert(separates == separator(by_line)(byte));
        if separates {
            pieces.push(current);
            current = Vec::new();
            assert(pieces_of(pieces@).push(current@) =~= before.push(Seq::empty()));
        } else {
            current.push(byte);
            assert(pieces_of(pieces@).push(current@) =~= before.update(
                before.len() - 1,
                before.last().push(byte),
            ));
        }
        i += 1;
    }
    assert(bytes@.take(i as int) =~= bytes@);
    let ghost before = pieces_of(pieces@);
    pieces.push(current);
    assert(pieces_of(pieces@) =~= before.push(current@));
    pieces
}

/// Cuts a line into its words.
pub fn split_words(line: &[u8]) -> (found: Vec<Vec<u8>>)
    ensures
        pieces_of(found@) == words(line@),
{
    let mut pieces = split_bytes(line, false);
    let ghost all = pieces_of(pieces@);
    let mut found: Vec<Vec<u8>> = Vec::new();
    let mut taken: usize = 0;
    let total = pieces.len();
    assert(all.take(0) =~= Seq::<Seq<u8>>::empty());
    while pieces.len() > 0
        invariant
            taken + pieces@.len() == total,
            total == all.len(),
            pieces_of(pieces@) == all.skip(taken as int),
            pieces_of(found@) == nonempty(all.take(taken as int)),
        decreases pieces@.len(),
    {
        let ghost rest = pieces_of(pieces@);
        let ghost kept = pieces_of(found@);
        let piece = pieces.remove(0);
        proof {
            assert(rest[0] == all[taken as int]);
            assert(all.take(taken + 1).drop_last() =~= all.take(taken as int));
            assert(pieces_of(pieces@) =~= all.skip(taken + 1)) by {
                assert forall|i: int| 0 <= i < pieces@.len() implies #[trigger] pieces_of(
                    pieces@,
                )[i] == all.skip(taken + 1)[i] by {
                    assert(rest[i + 1] == all.skip(taken as int)[i + 1]);
                }
            }
        }
        if piece.len() > 0 {
            found.push(piece);
            assert(pieces_of(found@) =~= kept.push(all[taken as int]));
        }
        taken += 1;
    }
    assert(all.take(taken as int) =~= all);
    found
}

/// Reads the number that `word` writes in decimal digits, which a plus sign
/// may lead. Nothing where the word writes no number, or one that the machine
/// cannot hold.
pub fn parse_number(word: &Vec<u8>) -> (number: Option<usize>)
    ensures
        number == number_of(word@),
{
    let start: usize = if word.len() > 0 && word[0] == 43 {
        1
    } else {
        0
    };
    let ghost digits = digits_of(word@);
    assert(digits.len() == word@.len() - start);
    if start >= word.len() {
        return None;
    }
    let mut value: usize = 0;
    let mut i: usize = start;
    while i < word.len()
        invariant
            start <= i <= word@.len(),
            digits == digits_of(word@),
            digits.len() == word@.len() - start,
            forall|k: int| 0 <= k < digits.len() ==> digits[k] == word@[k + start],
            forall|k: int| 0 <= k < i - start ==> 48 <= (#[trigger] digits[k]) <= 57,
            value == decimal_value(digits.take(i - start)),
        decreases word@.len() - i,
    {
        let byte = word[i];
        assert(digits[i - start] == byte);
        if byte < 48 || byte > 57 {
            return None;
        }
        let digit = (byte - 48) as usize;
        assert(digits.take(i - start + 1).drop_last() =~= digits.take(i - start));
        if value > (usize::MAX - digit) / 10 {
            proof {
                if is_numeral(word@) {
                    lemma_decimal_value_grows(digits, i - start + 1);
                }
            }
            return None;
        }
        value = value * 10 + digit;
        i += 1;
    }
    assert(digits.take(i - start) =~= digits);
    Some(value)
}

/// Reads the graph that the text `bytes` describes. A line whose first word
/// is `p` starts a graph without edges on as many vertices as its third word
/// says. A line whose first word is `e` adds the edge between the vertices
/// that its second and third words name, counted from one, once a graph was
/// started, and changes nothing where one of the two is no vertex of it.
/// Other lines are skipped. A word that should be a number and is none ends
/// the reading with an error.
pub fn parse_graph(bytes: &[u8]) -> (read: Result<Option<AdjList>, ParseError>)
    ensures
        match read {
            Ok(Some(graph)) => parsed(bytes@) == Ok::<Option<Seq<Seq<usize>>>, ParseError>(
                Some(graph@),
            ) && graph.wf(),
            Ok(None) => parsed(bytes@) == Ok::<Option<Seq<Seq<usize>>>, ParseError>(None),
            Err(error) => parsed(bytes@) == Err::<Option<Seq<Seq<usize>>>, ParseError>(error),
        },
{
    let all = split_bytes(bytes, true);
    let ghost text = pieces_of(all@);
    let mut graph: Option<AdjList> = None;
    let mut index: usize = 0;
    while index < all.len()
        invariant
            text == pieces_of(all@),
            text == lines(bytes@),
            index <= all@.len(),
            match graph {
                Some(g) => parsed_upto(text, index as int) == Ok::<
                    Option<Seq<Seq<usize>>>,
                    ParseError,
                >(Some(g@)) && g.wf(),
                None => parsed_upto(text, index as int) == Ok::<
                    Option<Seq<Seq<usize>>>,
                    ParseError,
                >(None),
            },
        decreases all@.len() - index,
    {
        let line = split_words(all[index].as_slice());
        assert(pieces_of(line@) == words(text[index as int]));
        if line.len() > 0 {
            assert(pieces_of(line@)[0] == line@[0]@);
            let is_p = line[0].len() == 1 && line[0][0] == 112;
            let is_e = line[0].len() == 1 && line[0][0] == 101;
            proof {
                if is_p {
                    assert(line@[0]@ =~= seq![112u8]);
                } else {
                    assert(line@[0]@ != seq![112u8]) by {
                        if line@[0]@.len() == 1 {
                            assert(seq![112u8][0] == 112u8);
                        } else {
                            assert(seq![112u8].len() == 1);
                        }
                    }
                }
                if is_e {
                    assert(line@[0]@ =~= seq![101u8]);
                } else {
                    assert(line@[0]@ != seq![101u8]) by {
                        if line@[0]@.len() == 1 {
                            assert(seq![101u8][0] == 101u8);
                        } else {
                            assert(seq![101u8].len() == 1);
                        }
                    }
                }
            }
            if is_p {
                if line.len() > 2 {
                    assert(pieces_of(line@)[2] == line@[2]@);
                    match parse_number(&line[2]) {
                        Some(num_vertices) => {
                            graph = Some(AdjList::new(num_vertices));
                        },
                        None => {
                            proof {
                                lemma_error_ends_reading(text, index + 1, text.len() as int);
                            }
                            return Err(ParseError::InvalidNumber { line: index });
                        },
                    }
                }
            } else if is_e {
                if line.len() > 2 {
                    assert(pieces_of(line@)[1] == line@[1]@);
                    assert(pieces_of(line@)[2] == line@[2]@);
                    match graph {
                        Some(mut started) => {
                            let from = match parse_number(&line[1]) {
                                Some(from) => from,
                                None => {
                                    proof {
                                        lemma_error_ends_reading(
                                            text,
                                            index + 1,
                                            text.len() as int,
                                        );
                                    }
                                    return Err(ParseError::InvalidNumber { line: index });
                                },
                            };
                            let to = match parse_number(&line[2]) {
                                Some(to) => to,
                                None => {
                                    proof {
                                        lemma_error_ends_reading(
                                            text,
                                            index + 1,
                                            text.len() as int,
                                        );
                                    }
                                    return Err(ParseError::InvalidNumber { line: index });
                                },
                            };
                            if from >= 1 && to >= 1 {
                                started.add_edge(from - 1, to - 1);
                            }
                            graph = Some(started);
                        },
                        None => {
                            graph = None;
                        },
                    }
                }
            }
        }
        index += 1;
    }
    match graph {
        Some(g) => Ok(Some(g)),
        None => Ok(None),
    }
}

} // verus!
