//! The text of a classification problem: the header line and the lines of
//! training and test data, as whole numbers.

use vstd::prelude::*;
use crate::text::{number, parse_usize, split_words, texts, words};

verus! {

/// What the words of a header line say: the first, third and fifth word are
/// the numbers of attributes, of values and of classes.
pub open spec fn header_of(w: Seq<Seq<char>>) -> Option<(usize, usize, usize)> {
    if w.len() >= 5 && number(w[0]) is Some && number(w[2]) is Some && number(w[4]) is Some {
        Some((number(w[0])->0, number(w[2])->0, number(w[4])->0))
    } else {
        None
    }
}

/// Reads the header line: the numbers of attributes, of values and of
/// classes. `None` where a word is missing or is no number.
pub fn read_header(line: &str) -> (header: Option<(usize, usize, usize)>)
    ensures
        header == header_of(words(line@)),
{
    let words = split_words(line);
    if words.len() < 5 {
        return None;
    }
    let attr = parse_usize(words[0].as_str());
    let val = parse_usize(words[2].as_str());
    let classes = parse_usize(words[4].as_str());
    match (attr, val, classes) {
        (Some(attr), Some(val), Some(classes)) => Some((attr, val, classes)),
        _ => None,
    }
}

/// The numbers that the words from `from` up to `upto` stand for; `None`
/// where one of them is no number.
pub open spec fn numbers(w: Seq<Seq<char>>, from: nat, upto: nat) -> Option<Seq<usize>>
    decreases upto,
{
    if upto <= from {
        Some(Seq::empty())
    } else {
        match (numbers(w, from, (upto - 1) as nat), number(w[upto - 1])) {
            (Some(before), Some(n)) => Some(before.push(n)),
            _ => None,
        }
    }
}

/// Once a word is no number, the numbers of more words are none either.
proof fn lemma_numbers_none(w: Seq<Seq<char>>, from: nat, at: nat, upto: nat)
    requires
        at <= upto,
        numbers(w, from, at) is None,
    ensures
        numbers(w, from, upto) is None,
    decreases upto,
{
    if at < upto {
        lemma_numbers_none(w, from, at, (upto - 1) as nat);
    }
}

/// Reads the numbers that the words of a line stand for, from word `from` on.
pub fn read_numbers(list: &Vec<String>, from: usize) -> (values: Option<Vec<usize>>)
    requires
        from <= list.len(),
    ensures
        match values {
            Some(v) => numbers(texts(list@), from as nat, list.len() as nat) == Some(v@),
            None => numbers(texts(list@), from as nat, list.len() as nat) is None,
        },
{
    let ghost w = texts(list@);
    let mut values: Vec<usize> = Vec::new();
    let mut i: usize = from;
    while i < list.len()
        invariant
            from <= i <= list.len(),
            w == texts(list@),
            numbers(w, from as nat, i as nat) == Some(values@),
        decreases list.len() - i,
    {
        assert(list[i as int]@ == w[i as int]);
        match parse_usize(list[i].as_str()) {
            Some(n) => {
                values.push(n);
            },
            None => {
                proof {
                    assert(numbers(w, from as nat, i as nat + 1) is None);
                    lemma_numbers_none(w, from as nat, i as nat + 1, list.len() as nat);
                }
                return None;
            },
        }
        i += 1;
    }
    Some(values)
}

/// What a line of training data says: its first word is the class, the others
/// are the values of the `attr` attributes.
pub open spec fn train_datum_of(w: Seq<Seq<char>>, attr: usize) -> Option<(usize, Seq<usize>)> {
    if w.len() >= 1 && number(w[0]) is Some && w.len() - 1 == attr {
        match numbers(w, 1, w.len()) {
            Some(values) => Some((number(w[0])->0, values)),
            None => None,
        }
    } else {
        None
    }
}

/// Reads a line of training data: the class and the values of the
/// attributes. `None` where a word is no number or the line does not hold
/// `attr` values.
pub fn read_train_datum(data: &str, attr: usize) -> (datum: Option<(usize, Vec<usize>)>)
    ensures
        match datum {
            Some((id, values)) => train_datum_of(words(data@), attr) == Some((id, values@)),
            None => train_datum_of(words(data@), attr) is None,
        },
{
    let list = split_words(data);
    if list.len() < 1 {
        return None;
    }
    let id = match parse_usize(list[0].as_str()) {
        Some(id) => id,
        None => {
            return None;
        },
    };
    if list.len() - 1 != attr {
        return None;
    }
    match read_numbers(&list, 1) {
        Some(values) => Some((id, values)),
        None => None,
    }
}

/// What a line of test data says: the values of the `attr` attributes.
pub open spec fn test_datum_of(w: Seq<Seq<char>>, attr: usize) -> Option<Seq<usize>> {
    if w.len() == attr {
        numbers(w, 0, w.len())
    } else {
        None
    }
}

/// Reads a line of test data: the values of the attributes. `None` where a
/// word is no number or the line does not hold `attr` values.
pub fn read_test_datum(data: &str, attr: usize) -> (values: Option<Vec<usize>>)
    ensures
        match values {
            Some(v) => test_datum_of(words(data@), attr) == Some(v@),
            None => test_datum_of(words(data@), attr) is None,
        },
{
    let list = split_words(data);
    if list.len() != attr {
        return None;
    }
    read_numbers(&list, 0)
}

} // verus!
