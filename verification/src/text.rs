//! Small text helpers shared by the structures: conversion between
//! `String` and `Vec<char>`, and the case-folding and trimming used to
//! normalise trie keys.

use vstd::prelude::*;
use vstd::std_specs::iter::IteratorSpec;

verus! {

/// The character sequence that `str::to_lowercase` returns for a given
/// input. It depends on the input characters alone.
pub uninterp spec fn lower_of(s: Seq<char>) -> Seq<char>;

/// The character sequence that `str::trim` returns for a given input:
/// the input without its leading and trailing whitespace. It depends on
/// the input characters alone.
pub uninterp spec fn trim_of(s: Seq<char>) -> Seq<char>;

/// Relies on str::to_lowercase: returns the lowercase equivalent of the
/// input, a pure function of the input characters; an empty input gives
/// an empty result.
#[verifier::external_body]
pub fn to_lower(s: &str) -> (r: String)
    ensures
        r@ == lower_of(s@),
        s@.len() == 0 ==> r@.len() == 0,
{
    s.to_lowercase()
}

/// Relies on str::trim: returns the input without leading and trailing
/// whitespace, a pure function of the input characters; an empty input
/// gives an empty result.
#[verifier::external_body]
pub fn trim_ws(s: &str) -> (r: &str)
    ensures
        r@ == trim_of(s@),
        s@.len() == 0 ==> r@.len() == 0,
{
    s.trim()
}

/// The canonical form of a word stored in the trie: lowercased, then
/// trimmed of surrounding whitespace.
pub open spec fn norm_of(s: Seq<char>) -> Seq<char> {
    trim_of(lower_of(s))
}

/// Normalises a word to its canonical stored form.
pub fn pre_process(word: &str) -> (r: String)
    ensures
        r@ == norm_of(word@),
{
    let lowered = to_lower(word);
    let trimmed = trim_ws(lowered.as_str());
    trimmed.to_owned()
}

/// Position of the first comma, or the length when there is none.
pub open spec fn first_comma(s: Seq<char>) -> int
    decreases s.len(),
{
    if s.len() == 0 {
        0
    } else if s[0] == ',' {
        0
    } else {
        1 + first_comma(s.drop_first())
    }
}

/// The comma-separated pieces of a character sequence; a sequence with
/// no comma is one piece, and every comma separates two pieces.
pub open spec fn split_commas(s: Seq<char>) -> Seq<Seq<char>>
    decreases s.len(),
{
    let i = first_comma(s);
    if i < 0 || i >= s.len() {
        seq![s]
    } else {
        seq![s.take(i)] + split_commas(s.skip(i + 1))
    }
}

/// The first comma sits after every earlier position and is a comma when
/// in range.
proof fn lemma_first_comma(s: Seq<char>)
    ensures
        0 <= first_comma(s) <= s.len(),
        first_comma(s) < s.len() ==> s[first_comma(s)] == ',',
        forall|j: int| 0 <= j < first_comma(s) ==> s[j] != ',',
    decreases s.len(),
{
    if s.len() > 0 && s[0] != ',' {
        lemma_first_comma(s.drop_first());
        assert forall|j: int| 0 <= j < first_comma(s) implies s[j] != ',' by {
            if j > 0 {
                assert(s.drop_first()[j - 1] != ',');
            }
        }
    }
}

/// A scan that stops at position `q` identifies the first comma.
proof fn lemma_first_comma_at(s: Seq<char>, q: int)
    requires
        0 <= q <= s.len(),
        forall|j: int| 0 <= j < q ==> s[j] != ',',
        q < s.len() ==> s[q] == ',',
    ensures
        first_comma(s) == q,
    decreases s.len(),
{
    if s.len() > 0 && s[0] != ',' {
        assert(q > 0);
        assert forall|j: int| 0 <= j < q - 1 implies s.drop_first()[j] != ',' by {
            assert(s[j + 1] != ',');
        }
        lemma_first_comma_at(s.drop_first(), q - 1);
    }
}

/// Splits on commas and trims each piece: the fields of a
/// comma-separated position list.
pub fn split_and_trim(s: &str) -> (r: Vec<String>)
    ensures
        r@.len() == split_commas(s@).len(),
        forall|i: int|
            0 <= i < r@.len() ==> (#[trigger] r@[i])@ == trim_of(split_commas(s@)[i]),
{
    let cs = chars_of(s);
    proof {
        assert(cs@.skip(0) =~= s@);
    }
    split_and_trim_from(&cs, 0)
}

/// Splits `cs[start..]` on commas, trimming each piece.
fn split_and_trim_from(cs: &Vec<char>, start: usize) -> (r: Vec<String>)
    requires
        start <= cs@.len(),
    ensures
        r@.len() == split_commas(cs@.skip(start as int)).len(),
        forall|i: int|
            0 <= i < r@.len() ==> (#[trigger] r@[i])@ == trim_of(
                split_commas(cs@.skip(start as int))[i],
            ),
    decreases cs@.len() - start,
{
    let ghost tail = cs@.skip(start as int);
    let mut piece: Vec<char> = Vec::new();
    let mut q: usize = start;
    while q < cs.len() && cs[q] != ','
        invariant
            start <= q <= cs@.len(),
            piece@ =~= cs@.subrange(start as int, q as int),
            forall|j: int| start <= j < q ==> cs@[j] != ',',
        decreases cs@.len() - q,
    {
        piece.push(cs[q]);
        proof {
            assert(piece@ =~= cs@.subrange(start as int, q + 1));
        }
        q = q + 1;
    }
    proof {
        assert forall|j: int| 0 <= j < q - start implies tail[j] != ',' by {
            assert(tail[j] == cs@[start + j]);
        }
        if (q as int) < cs@.len() {
            assert(tail[q - start] == cs@[q as int]);
        }
        lemma_first_comma_at(tail, q - start as int);
        assert(piece@ =~= tail.take(q - start as int));
    }
    let piece_str = string_from_chars(&piece);
    let trimmed = trim_ws(piece_str.as_str()).to_owned();
    if q == cs.len() {
        proof {
            assert(tail.take(q - start as int) =~= tail);
            assert(split_commas(tail) == seq![tail]);
        }
        let mut r: Vec<String> = Vec::new();
        r.push(trimmed);
        r
    } else {
        let rest = split_and_trim_from(cs, q + 1);
        proof {
            assert(cs@.skip(q + 1) =~= tail.skip(q - start as int + 1));
            assert(split_commas(tail) == seq![tail.take(q - start as int)] + split_commas(
                tail.skip(q - start as int + 1),
            ));
        }
        let mut r: Vec<String> = Vec::new();
        r.push(trimmed);
        let mut rest_mut = rest;
        r.append(&mut rest_mut);
        proof {
            assert forall|i: int|
                0 <= i < r@.len() implies (#[trigger] r@[i])@ == trim_of(
                split_commas(tail)[i],
            ) by {
                if i == 0 {
                    assert(r@[0]@ == trim_of(tail.take(q - start as int)));
                    assert(split_commas(tail)[0] == tail.take(q - start as int));
                } else {
                    assert(split_commas(tail)[i] == split_commas(
                        tail.skip(q - start as int + 1),
                    )[i - 1]);
                }
            }
        }
        r
    }
}

/// Relies on core::fmt's Debug formatting: renders a value's debug text.
#[verifier::external_body]
pub fn debug_text<T: core::fmt::Debug>(v: &T) -> String {
    format!("{:?}", v)
}

/// Relies on String::push: appends the given character to the end of the
/// string.
#[verifier::external_body]
pub fn push_char(s: &mut String, c: char)
    ensures
        final(s)@ == old(s)@.push(c),
{
    s.push(c);
}

/// Collects the characters of a string slice into a vector.
pub fn chars_of(s: &str) -> (v: Vec<char>)
    ensures
        v@ == s@,
{
    broadcast use vstd::string::group_string_axioms;

    let mut it = s.chars();
    let mut v: Vec<char> = Vec::new();
    loop
        invariant
            it.obeys_prophetic_iter_laws(),
            it.decrease() is Some,
            v@ + it.remaining() == s@,
        ensures
            v@ == s@,
        decreases it.decrease()->0,
    {
        match it.next() {
            Some(c) => {
                v.push(c);
            },
            None => {
                proof {
                    assert(v@ + it.remaining() =~= v@);
                }
                break ;
            },
        }
    }
    v
}

/// Builds a string from a sequence of characters.
pub fn string_from_chars(cs: &Vec<char>) -> (s: String)
    ensures
        s@ == cs@,
{
    let mut s = String::new();
    let mut i: usize = 0;
    while i < cs.len()
        invariant
            i <= cs.len(),
            s@ == cs@.take(i as int),
        decreases cs.len() - i,
    {
        push_char(&mut s, cs[i]);
        proof {
            assert(cs@.take(i as int).push(cs@[i as int]) =~= cs@.take(i + 1));
        }
        i = i + 1;
    }
    proof {
        assert(cs@.take(cs@.len() as int) =~= cs@);
    }
    s
}

} // verus!
