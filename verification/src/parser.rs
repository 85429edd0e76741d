//! The typed query language: one of four query shapes, parsed from a
//! line of text.
//!
//! The grammar splits the line into whitespace-separated words. The
//! first word picks the shape: `player` followed by a name (the
//! remaining words joined by single blanks), `user` followed by a
//! decimal identifier, `tags` followed by quoted tag texts, or a word
//! beginning with `top` whose remainder is a count, followed by a quoted
//! position code.

use vstd::prelude::*;

verus! {

/// A parsed query: a player-name prefix search, a user lookup by id, the
/// top `n` players of a position, or a tag intersection.
#[derive(Debug, PartialEq, Eq)]
pub enum Query {
    Player(String),
    User(u32),
    Top(i32, String),
    Tags(Vec<String>),
}

/// A query-text parse failure.
#[derive(Debug, Clone, Copy, PartialEq, Eq, Structural)]
pub enum ParseError {
    InvalidQuery,
}

/// The mathematical shape of a parsed query, over character sequences.
pub enum SpecQuery {
    Player(Seq<char>),
    User(u32),
    Top(i32, Seq<char>),
    Tags(Seq<Seq<char>>),
    Invalid,
}

/// The blank characters that separate words.
pub open spec fn is_blank(c: char) -> bool {
    c == ' ' || c == '\t' || c == '\n' || c == '\r'
}

/// First position at or after `i` holding a non-blank character.
pub open spec fn skip_blanks(s: Seq<char>, i: int) -> int
    decreases s.len() - i,
{
    if i < 0 || i >= s.len() {
        s.len() as int
    } else if is_blank(s[i]) {
        skip_blanks(s, i + 1)
    } else {
        i
    }
}

/// First position at or after `i` holding a blank character.
pub open spec fn word_end(s: Seq<char>, i: int) -> int
    decreases s.len() - i,
{
    if i < 0 || i >= s.len() {
        s.len() as int
    } else if is_blank(s[i]) {
        i
    } else {
        word_end(s, i + 1)
    }
}

/// Positions only move right, within the line.
proof fn lemma_scan_bounds(s: Seq<char>, i: int)
    requires
        0 <= i <= s.len(),
    ensures
        i <= skip_blanks(s, i) <= s.len(),
        i <= word_end(s, i) <= s.len(),
        i < s.len() && !is_blank(s[i]) ==> word_end(s, i) > i,
        skip_blanks(s, i) < s.len() ==> !is_blank(s[skip_blanks(s, i)]),
    decreases s.len() - i,
{
    if i < s.len() {
        lemma_scan_bounds(s, i + 1);
    }
}

/// The whitespace-separated words of the line, from position `i` on.
pub open spec fn words_from(s: Seq<char>, i: int) -> Seq<Seq<char>>
    decreases s.len() - i,
    when i >= 0
    via words_from_dec
{
    if i < 0 {
        Seq::empty()
    } else {
        let st = skip_blanks(s, i);
        if st >= s.len() {
            Seq::empty()
        } else {
            let e = word_end(s, st);
            seq![s.subrange(st, e)] + words_from(s, e)
        }
    }
}

#[via_fn]
proof fn words_from_dec(s: Seq<char>, i: int) {
    if 0 <= i <= s.len() {
        lemma_scan_bounds(s, i);
        let st = skip_blanks(s, i);
        if st < s.len() {
            lemma_scan_bounds(s, st);
        }
    }
}

/// Words joined by single blanks.
pub open spec fn join_blanks(ws: Seq<Seq<char>>) -> Seq<char>
    decreases ws.len(),
{
    if ws.len() == 0 {
        Seq::empty()
    } else if ws.len() == 1 {
        ws.first()
    } else {
        ws.first() + seq![' '] + join_blanks(ws.drop_first())
    }
}

pub open spec fn is_digit(c: char) -> bool {
    '0' <= c && c <= '9'
}

/// Value of a digit string, most significant first.
pub open spec fn digits_value(s: Seq<char>) -> int
    decreases s.len(),
{
    if s.len() == 0 {
        0
    } else {
        digits_value(s.drop_last()) * 10 + (s.last() as int - '0' as int)
    }
}

pub open spec fn all_digits(s: Seq<char>) -> bool {
    forall|i: int| 0 <= i < s.len() ==> is_digit(#[trigger] s[i])
}

/// The unsigned decimal number a word denotes, if any: an optional plus
/// sign, then digits, within the 32-bit range.
pub open spec fn parse_u32_spec(s: Seq<char>) -> Option<u32> {
    let body = if s.len() > 0 && s[0] == '+' {
        s.drop_first()
    } else {
        s
    };
    if body.len() > 0 && all_digits(body) && digits_value(body) <= u32::MAX as int {
        Some(digits_value(body) as u32)
    } else {
        None
    }
}

/// The signed decimal number a word denotes, if any: an optional sign,
/// then digits, within the 32-bit signed range.
pub open spec fn parse_i32_spec(s: Seq<char>) -> Option<i32> {
    let negative = s.len() > 0 && s[0] == '-';
    let body = if s.len() > 0 && (s[0] == '-' || s[0] == '+') {
        s.drop_first()
    } else {
        s
    };
    if body.len() > 0 && all_digits(body) {
        if negative && digits_value(body) <= 0x8000_0000 {
            Some((-digits_value(body)) as i32)
        } else if !negative && digits_value(body) <= i32::MAX as int {
            Some(digits_value(body) as i32)
        } else {
            None
        }
    } else {
        None
    }
}

/// Position of the first quote, or the length when there is none.
pub open spec fn first_quote(s: Seq<char>) -> int
    decreases s.len(),
{
    if s.len() == 0 {
        0
    } else if s[0] == '\'' {
        0
    } else {
        1 + first_quote(s.drop_first())
    }
}

/// The quote-separated pieces of a sequence.
pub open spec fn split_quotes(s: Seq<char>) -> Seq<Seq<char>>
    decreases s.len(),
{
    let i = first_quote(s);
    if i < 0 || i >= s.len() {
        seq![s]
    } else {
        seq![s.take(i)] + split_quotes(s.skip(i + 1))
    }
}

pub open spec fn all_blanks(s: Seq<char>) -> bool {
    forall|i: int| 0 <= i < s.len() ==> is_blank(#[trigger] s[i])
}

/// The tag texts of a quoted tag list: the pieces between quotes, valid
/// only when everything outside the quotes is blank.
pub open spec fn parse_tags_spec(s: Seq<char>) -> Option<Seq<Seq<char>>> {
    let pieces = split_quotes(s);
    if forall|i: int| 0 <= i < pieces.len() && i % 2 == 0 ==> all_blanks(#[trigger] pieces[i]) {
        Some(Seq::new(pieces.len() / 2, |k: int| pieces[2 * k + 1]))
    } else {
        None
    }
}

/// What the query line denotes.
pub open spec fn spec_parse_query(s: Seq<char>) -> SpecQuery {
    let ws = words_from(s, 0);
    if ws.len() == 0 {
        SpecQuery::Invalid
    } else if ws[0] == seq!['p', 'l', 'a', 'y', 'e', 'r'] {
        if ws.len() >= 2 {
            SpecQuery::Player(join_blanks(ws.drop_first()))
        } else {
            SpecQuery::Invalid
        }
    } else if ws[0] == seq!['u', 's', 'e', 'r'] {
        if ws.len() >= 2 && parse_u32_spec(ws[1]) is Some {
            SpecQuery::User(parse_u32_spec(ws[1]).unwrap())
        } else {
            SpecQuery::Invalid
        }
    } else if ws[0] == seq!['t', 'a', 'g', 's'] {
        if ws.len() >= 2 && parse_tags_spec(join_blanks(ws.drop_first())) is Some {
            SpecQuery::Tags(parse_tags_spec(join_blanks(ws.drop_first())).unwrap())
        } else {
            SpecQuery::Invalid
        }
    } else if ws[0].len() >= 3 && ws[0].take(3) == seq!['t', 'o', 'p'] {
        let numpart = ws[0].skip(3);
        if parse_i32_spec(numpart) is Some && ws.len() >= 2 && ws[1].len() >= 2 && ws[1].first()
            == '\'' && ws[1].last() == '\'' {
            SpecQuery::Top(
                parse_i32_spec(numpart).unwrap(),
                ws[1].subrange(1, ws[1].len() - 1),
            )
        } else {
            SpecQuery::Invalid
        }
    } else {
        SpecQuery::Invalid
    }
}


/// A digit string's value is never negative.
proof fn lemma_digits_nonneg(s: Seq<char>)
    requires
        all_digits(s),
    ensures
        digits_value(s) >= 0,
    decreases s.len(),
{
    if s.len() > 0 {
        assert(all_digits(s.drop_last())) by {
            assert(forall|i: int| 0 <= i < s.len() - 1 ==> is_digit(#[trigger] s[i]));
        }
        lemma_digits_nonneg(s.drop_last());
    }
}

/// Extending a digit string never shrinks its value.
proof fn lemma_digits_monotone(s: Seq<char>, k: int)
    requires
        all_digits(s),
        0 <= k <= s.len(),
    ensures
        digits_value(s.take(k)) <= digits_value(s),
    decreases s.len() - k,
{
    if k == s.len() {
        assert(s.take(k) =~= s);
    } else {
        lemma_digits_monotone(s, k + 1);
        assert(s.take(k + 1).drop_last() =~= s.take(k));
        assert(all_digits(s.take(k))) by {
            assert(forall|i: int| 0 <= i < k ==> s.take(k)[i] == s[i]);
        }
        lemma_digits_nonneg(s.take(k));
        assert(is_digit(s[k]));
        assert(s[k] as int - '0' as int >= 0);
        assert(digits_value(s.take(k + 1)) == digits_value(s.take(k)) * 10 + (s[k] as int
            - '0' as int));
        assert(digits_value(s.take(k)) * 10 >= digits_value(s.take(k)));
    }
}

/// Mirrors `skip_blanks`.
fn skip_blanks_exec(cs: &Vec<char>, i: usize) -> (r: usize)
    requires
        i <= cs@.len(),
    ensures
        r == skip_blanks(cs@, i as int),
        i <= r <= cs@.len(),
    decreases cs@.len() - i,
{
    proof {
        lemma_scan_bounds(cs@, i as int);
    }
    if i >= cs.len() {
        i
    } else {
        let c = cs[i];
        if c == ' ' || c == '\t' || c == '\n' || c == '\r' {
            skip_blanks_exec(cs, i + 1)
        } else {
            i
        }
    }
}

/// Mirrors `word_end`.
fn word_end_exec(cs: &Vec<char>, i: usize) -> (r: usize)
    requires
        i <= cs@.len(),
    ensures
        r == word_end(cs@, i as int),
        i <= r <= cs@.len(),
    decreases cs@.len() - i,
{
    proof {
        lemma_scan_bounds(cs@, i as int);
    }
    if i >= cs.len() {
        i
    } else {
        let c = cs[i];
        if c == ' ' || c == '\t' || c == '\n' || c == '\r' {
            i
        } else {
            word_end_exec(cs, i + 1)
        }
    }
}

/// An exact copy of a character range.
fn copy_range(cs: &Vec<char>, from: usize, to: usize) -> (r: Vec<char>)
    requires
        from <= to <= cs@.len(),
    ensures
        r@ == cs@.subrange(from as int, to as int),
{
    let mut r: Vec<char> = Vec::new();
    let mut i: usize = from;
    proof {
        assert(r@ =~= cs@.subrange(from as int, from as int));
    }
    while i < to
        invariant
            from <= i <= to <= cs@.len(),
            r@ =~= cs@.subrange(from as int, i as int),
        decreases to - i,
    {
        r.push(cs[i]);
        proof {
            assert(r@ =~= cs@.subrange(from as int, i + 1));
        }
        i = i + 1;
    }
    r
}

/// The views of a word list.
pub open spec fn word_views(ws: Seq<Vec<char>>) -> Seq<Seq<char>> {
    Seq::new(ws.len(), |i: int| ws[i]@)
}

/// Mirrors `words_from`: collects the whitespace-separated words.
fn words_exec(cs: &Vec<char>, i: usize) -> (r: Vec<Vec<char>>)
    requires
        i <= cs@.len(),
    ensures
        word_views(r@) == words_from(cs@, i as int),
    decreases cs@.len() - i,
{
    proof {
        lemma_scan_bounds(cs@, i as int);
    }
    let st = skip_blanks_exec(cs, i);
    if st >= cs.len() {
        let r: Vec<Vec<char>> = Vec::new();
        proof {
            assert(word_views(r@) =~= words_from(cs@, i as int));
        }
        r
    } else {
        proof {
            lemma_scan_bounds(cs@, st as int);
        }
        let e = word_end_exec(cs, st);
        let w = copy_range(cs, st, e);
        proof {
            assert(!is_blank(cs@[st as int]));
            assert(e > st);
        }
        let rest = words_exec(cs, e);
        let mut r: Vec<Vec<char>> = Vec::new();
        r.push(w);
        let mut rest_mut = rest;
        let ghost rest_views = word_views(rest_mut@);
        r.append(&mut rest_mut);
        proof {
            assert(word_views(r@) =~= seq![cs@.subrange(st as int, e as int)] + rest_views);
        }
        r
    }
}

/// Whether the word spells an expected keyword.
fn word_eq(w: &Vec<char>, Ghost(expect): Ghost<Seq<char>>, a: char, b: char, c: char, d: char, e: char, f: char, n: usize) -> (r: bool)
    requires
        1 <= n <= 6,
        expect.len() == n,
        expect[0] == a,
        n >= 2 ==> expect[1] == b,
        n >= 3 ==> expect[2] == c,
        n >= 4 ==> expect[3] == d,
        n >= 5 ==> expect[4] == e,
        n >= 6 ==> expect[5] == f,
    ensures
        r == (w@ == expect),
{
    if w.len() != n {
        proof {
            assert(w@ != expect);
        }
        return false;
    }
    let chars = [a, b, c, d, e, f];
    let mut i: usize = 0;
    while i < n
        invariant
            i <= n,
            n <= 6,
            w@.len() == n,
            expect.len() == n,
            expect[0] == a,
            n >= 2 ==> expect[1] == b,
            n >= 3 ==> expect[2] == c,
            n >= 4 ==> expect[3] == d,
            n >= 5 ==> expect[4] == e,
            n >= 6 ==> expect[5] == f,
            chars@ == seq![a, b, c, d, e, f],
            forall|j: int| 0 <= j < i ==> w@[j] == expect[j],
        decreases n - i,
    {
        if w[i] != chars[i] {
            proof {
                assert(w@[i as int] != expect[i as int]);
            }
            return false;
        }
        i = i + 1;
    }
    proof {
        assert(w@ =~= expect);
    }
    true
}

/// Mirrors `parse_u32_spec` on a word's suffix starting at `from`.
fn parse_u32_exec(w: &Vec<char>, from: usize) -> (r: Option<u32>)
    requires
        from <= w@.len(),
    ensures
        r == parse_u32_spec(w@.skip(from as int)),
{
    let ghost s = w@.skip(from as int);
    let start = if from < w.len() && w[from] == '+' {
        from + 1
    } else {
        from
    };
    let ghost body = if s.len() > 0 && s[0] == '+' {
        s.drop_first()
    } else {
        s
    };
    proof {
        assert(w@.skip(start as int) =~= body);
    }
    if start >= w.len() {
        proof {
            assert(body.len() == 0);
        }
        return None;
    }
    let mut acc: u64 = 0;
    let mut i: usize = start;
    while i < w.len()
        invariant
            start <= i <= w@.len(),
            body == w@.skip(start as int),
            body.len() == w@.len() - start,
            parse_u32_spec(w@.skip(from as int)) == (if body.len() > 0 && all_digits(body)
                && digits_value(body) <= u32::MAX as int {
                Some(digits_value(body) as u32)
            } else {
                Option::<u32>::None
            }),
            all_digits(body.take(i - start as int)),
            acc as int == digits_value(body.take(i - start as int)),
            acc <= u32::MAX,
        decreases w@.len() - i,
    {
        let c = w[i];
        if !(c >= '0' && c <= '9') {
            proof {
                assert(body[i - start as int] == w@[i as int]);
                assert(!is_digit(body[i - start as int]));
                assert(!all_digits(body));
            }
            return None;
        }
        let d: u64 = (c as u32 as u64) - ('0' as u32 as u64);
        proof {
            assert(body.take(i - start as int + 1).drop_last() =~= body.take(i - start as int));
            assert(body.take(i - start as int + 1).last() == w@[i as int]);
        }
        let next = acc * 10 + d;
        if next > 0xFFFF_FFFF {
            proof {
                assert(body.take(i - start as int + 1).drop_last() =~= body.take(
                    i - start as int,
                ));
                assert(body.take(i - start as int + 1).last() == body[i - start as int]);
                assert(digits_value(body.take(i - start as int + 1)) == acc as int * 10 + (
                body[i - start as int] as int - '0' as int));
                assert(digits_value(body.take(i - start as int + 1)) > u32::MAX as int);
                if all_digits(body) {
                    lemma_digits_monotone(body, i - start as int + 1);
                    assert(digits_value(body) > u32::MAX as int);
                }
            }
            return None;
        }
        acc = next;
        i = i + 1;
    }
    proof {
        assert(body.take(body.len() as int) =~= body);
        assert(body.len() > 0);
    }
    Some(acc as u32)
}



/// Mirrors `parse_i32_spec` on a word's suffix starting at `from`.
fn parse_i32_exec(w: &Vec<char>, from: usize) -> (r: Option<i32>)
    requires
        from <= w@.len(),
    ensures
        r == parse_i32_spec(w@.skip(from as int)),
{
    let ghost s = w@.skip(from as int);
    let negative = from < w.len() && w[from] == '-';
    let start = if from < w.len() && (w[from] == '-' || w[from] == '+') {
        from + 1
    } else {
        from
    };
    let ghost body = if s.len() > 0 && (s[0] == '-' || s[0] == '+') {
        s.drop_first()
    } else {
        s
    };
    proof {
        assert(w@.skip(start as int) =~= body);
    }
    if start >= w.len() {
        proof {
            assert(body.len() == 0);
        }
        return None;
    }
    let mut acc: u64 = 0;
    let mut i: usize = start;
    while i < w.len()
        invariant
            start <= i <= w@.len(),
            body == w@.skip(start as int),
            body.len() == w@.len() - start,
            negative == (s.len() > 0 && s[0] == '-'),
            parse_i32_spec(w@.skip(from as int)) == (if body.len() > 0 && all_digits(body) {
                if negative && digits_value(body) <= 0x8000_0000 {
                    Some((-digits_value(body)) as i32)
                } else if !negative && digits_value(body) <= i32::MAX as int {
                    Some(digits_value(body) as i32)
                } else {
                    Option::<i32>::None
                }
            } else {
                Option::<i32>::None
            }),
            all_digits(body.take(i - start as int)),
            acc as int == digits_value(body.take(i - start as int)),
            acc <= 0x8000_0000,
        decreases w@.len() - i,
    {
        let c = w[i];
        if !(c >= '0' && c <= '9') {
            proof {
                assert(body[i - start as int] == w@[i as int]);
                assert(!is_digit(body[i - start as int]));
                assert(!all_digits(body));
            }
            return None;
        }
        let d: u64 = (c as u32 as u64) - ('0' as u32 as u64);
        proof {
            assert(body.take(i - start as int + 1).drop_last() =~= body.take(i - start as int));
            assert(body.take(i - start as int + 1).last() == body[i - start as int]);
            assert(body[i - start as int] == w@[i as int]);
        }
        let next = acc * 10 + d;
        if next > 0x8000_0000 {
            proof {
                assert(digits_value(body.take(i - start as int + 1)) == acc as int * 10 + (
                body[i - start as int] as int - '0' as int));
                assert(digits_value(body.take(i - start as int + 1)) > 0x8000_0000);
                if all_digits(body) {
                    lemma_digits_monotone(body, i - start as int + 1);
                    assert(digits_value(body) > 0x8000_0000);
                }
            }
            return None;
        }
        acc = next;
        i = i + 1;
    }
    proof {
        assert(body.take(body.len() as int) =~= body);
        assert(body.len() > 0);
    }
    if negative {
        #[verifier::truncate]
        let v = (0i64 - (acc as i64)) as i32;
        proof {
            assert(acc as int == digits_value(body));
            assert(v as int == (-digits_value(body)) as i32 as int);
        }
        Some(v)
    } else {
        if acc > 0x7FFF_FFFF {
            return None;
        }
        Some(acc as i32)
    }
}

/// Mirrors `join_blanks` from word `k` on.
fn join_exec(ws: &Vec<Vec<char>>, k: usize) -> (r: Vec<char>)
    requires
        k <= ws@.len(),
    ensures
        r@ == join_blanks(word_views(ws@).skip(k as int)),
    decreases ws@.len() - k,
{
    let ghost tail = word_views(ws@).skip(k as int);
    if k >= ws.len() {
        let r: Vec<char> = Vec::new();
        proof {
            assert(tail.len() == 0);
        }
        r
    } else if k == ws.len() - 1 {
        let r = copy_range(&ws[k], 0, ws[k].len());
        proof {
            assert(tail.len() == 1);
            assert(tail.first() == ws@[k as int]@);
            assert(r@ =~= ws@[k as int]@);
        }
        r
    } else {
        let mut r = copy_range(&ws[k], 0, ws[k].len());
        r.push(' ');
        let rest = join_exec(ws, k + 1);
        let mut rest_mut = rest;
        let ghost rest_view = rest_mut@;
        r.append(&mut rest_mut);
        proof {
            assert(tail.len() >= 2);
            assert(tail.first() == ws@[k as int]@);
            assert(tail.drop_first() =~= word_views(ws@).skip(k + 1));
            assert(r@ =~= tail.first() + seq![' '] + rest_view);
        }
        r
    }
}

/// A scan that stops at position `q` identifies the first quote.
proof fn lemma_first_quote_at(s: Seq<char>, q: int)
    requires
        0 <= q <= s.len(),
        forall|j: int| 0 <= j < q ==> s[j] != '\'',
        q < s.len() ==> s[q] == '\'',
    ensures
        first_quote(s) == q,
    decreases s.len(),
{
    if s.len() > 0 && s[0] != '\'' {
        assert(q > 0);
        assert forall|j: int| 0 <= j < q - 1 implies s.drop_first()[j] != '\'' by {
            assert(s[j + 1] != '\'');
        }
        lemma_first_quote_at(s.drop_first(), q - 1);
    }
}

/// Splits `cs[start..]` on quotes.
fn split_quotes_exec(cs: &Vec<char>, start: usize) -> (r: Vec<Vec<char>>)
    requires
        start <= cs@.len(),
    ensures
        word_views(r@) == split_quotes(cs@.skip(start as int)),
    decreases cs@.len() - start,
{
    let ghost tail = cs@.skip(start as int);
    let mut q: usize = start;
    while q < cs.len() && cs[q] != '\''
        invariant
            start <= q <= cs@.len(),
            forall|j: int| start <= j < q ==> cs@[j] != '\'',
        decreases cs@.len() - q,
    {
        q = q + 1;
    }
    proof {
        assert forall|j: int| 0 <= j < q - start implies tail[j] != '\'' by {
            assert(tail[j] == cs@[start + j]);
        }
        if (q as int) < cs@.len() {
            assert(tail[q - start] == cs@[q as int]);
        }
        lemma_first_quote_at(tail, q - start as int);
    }
    let piece = copy_range(cs, start, q);
    proof {
        assert(piece@ =~= tail.take(q - start as int));
    }
    if q == cs.len() {
        proof {
            assert(tail.take(q - start as int) =~= tail);
            assert(split_quotes(tail) == seq![tail]);
        }
        let mut r: Vec<Vec<char>> = Vec::new();
        r.push(piece);
        proof {
            assert(word_views(r@) =~= seq![tail]);
        }
        r
    } else {
        let rest = split_quotes_exec(cs, q + 1);
        proof {
            assert(cs@.skip(q + 1) =~= tail.skip(q - start as int + 1));
            assert(split_quotes(tail) == seq![tail.take(q - start as int)] + split_quotes(
                tail.skip(q - start as int + 1),
            ));
        }
        let mut r: Vec<Vec<char>> = Vec::new();
        r.push(piece);
        let mut rest_mut = rest;
        let ghost rest_views = word_views(rest_mut@);
        r.append(&mut rest_mut);
        proof {
            assert(word_views(r@) =~= seq![tail.take(q - start as int)] + rest_views);
        }
        r
    }
}

/// Whether every character of the word is blank.
fn all_blanks_exec(w: &Vec<char>) -> (r: bool)
    ensures
        r == all_blanks(w@),
{
    let mut i: usize = 0;
    while i < w.len()
        invariant
            i <= w@.len(),
            forall|j: int| 0 <= j < i ==> is_blank(#[trigger] w@[j]),
        decreases w@.len() - i,
    {
        let c = w[i];
        if !(c == ' ' || c == '\t' || c == '\n' || c == '\r') {
            proof {
                assert(!is_blank(w@[i as int]));
            }
            return false;
        }
        i = i + 1;
    }
    true
}



/// Parses one query line; `ParseError` exactly when the line fits no
/// query shape of the grammar.
#[verifier::rlimit(60)]
pub fn parse_query(query: &str) -> (r: Result<Query, ParseError>)
    ensures
        match spec_parse_query(query@) {
            SpecQuery::Player(nm) => r matches Ok(Query::Player(n)) && n@ == nm,
            SpecQuery::User(v) => r == Ok::<Query, ParseError>(Query::User(v)),
            SpecQuery::Top(n, p) => r matches Ok(Query::Top(m, pos)) && m == n && pos@ == p,
            SpecQuery::Tags(ts) => r matches Ok(Query::Tags(tags)) && crate::models::tag_views(
                tags@,
            ) == ts,
            SpecQuery::Invalid => r is Err,
        },
{
    let cs = crate::text::chars_of(query);
    let ws = words_exec(&cs, 0);
    let ghost wv = words_from(query@, 0);
    proof {
        assert(cs@.skip(0) =~= cs@);
        assert(word_views(ws@) == words_from(cs@, 0));
    }
    if ws.len() == 0 {
        return Err(ParseError::InvalidQuery);
    }
    let head = &ws[0];
    let ghost player_kw = seq!['p', 'l', 'a', 'y', 'e', 'r'];
    let ghost user_kw = seq!['u', 's', 'e', 'r'];
    let ghost tags_kw = seq!['t', 'a', 'g', 's'];
    if word_eq(head, Ghost(player_kw), 'p', 'l', 'a', 'y', 'e', 'r', 6) {
        if ws.len() >= 2 {
            let name_chars = join_exec(&ws, 1);
            proof {
                assert(word_views(ws@).skip(1) =~= word_views(ws@).drop_first());
            }
            let name = crate::text::string_from_chars(&name_chars);
            Ok(Query::Player(name))
        } else {
            Err(ParseError::InvalidQuery)
        }
    } else if word_eq(head, Ghost(user_kw), 'u', 's', 'e', 'r', 'r', 'r', 4) {
        if ws.len() >= 2 {
            proof {
                assert(ws@[1]@.skip(0) =~= ws@[1]@);
            }
            match parse_u32_exec(&ws[1], 0) {
                Some(v) => Ok(Query::User(v)),
                None => Err(ParseError::InvalidQuery),
            }
        } else {
            Err(ParseError::InvalidQuery)
        }
    } else if word_eq(head, Ghost(tags_kw), 't', 'a', 'g', 's', 's', 's', 4) {
        if ws.len() >= 2 {
            let joined = join_exec(&ws, 1);
            proof {
                assert(word_views(ws@).skip(1) =~= word_views(ws@).drop_first());
                assert(joined@.skip(0) =~= joined@);
            }
            let pieces = split_quotes_exec(&joined, 0);
            let ghost spec_pieces = split_quotes(joined@);
            let mut tags: Vec<String> = Vec::new();
            let mut i: usize = 0;
            let mut valid = true;
            while i < pieces.len()
                invariant_except_break
                    valid,
                invariant
                    i <= pieces@.len(),
                    word_views(pieces@) == spec_pieces,
                    forall|j: int|
                        0 <= j < i && j % 2 == 0 ==> all_blanks(#[trigger] spec_pieces[j]),
                    tags@.len() == i / 2,
                    forall|k: int|
                        0 <= k < tags@.len() ==> (#[trigger] tags@[k])@ == spec_pieces[2 * k + 1],
                ensures
                    valid ==> i == pieces@.len(),
                    valid ==> forall|j: int|
                        0 <= j < pieces@.len() && j % 2 == 0 ==> all_blanks(
                            #[trigger] spec_pieces[j],
                        ),
                    valid ==> tags@.len() == pieces@.len() / 2,
                    valid ==> forall|k: int|
                        0 <= k < tags@.len() ==> (#[trigger] tags@[k])@ == spec_pieces[2 * k + 1],
                    !valid ==> exists|j: int|
                        0 <= j < pieces@.len() && j % 2 == 0 && !all_blanks(
                            #[trigger] spec_pieces[j],
                        ),
                decreases pieces@.len() - i,
            {
                if i % 2 == 1 {
                    let t = crate::text::string_from_chars(&pieces[i]);
                    tags.push(t);
                } else {
                    if !all_blanks_exec(&pieces[i]) {
                        valid = false;
                        proof {
                            assert(!all_blanks(spec_pieces[i as int]));
                        }
                        break ;
                    }
                }
                i = i + 1;
            }
            if valid {
                proof {
                    assert(parse_tags_spec(joined@) is Some);
                    assert(crate::models::tag_views(tags@) =~= parse_tags_spec(
                        joined@,
                    ).unwrap());
                }
                Ok(Query::Tags(tags))
            } else {
                proof {
                    assert(parse_tags_spec(joined@) is None);
                }
                Err(ParseError::InvalidQuery)
            }
        } else {
            Err(ParseError::InvalidQuery)
        }
    } else if head.len() >= 3 && head[0] == 't' && head[1] == 'o' && head[2] == 'p' {
        proof {
            assert(head@.take(3) =~= seq!['t', 'o', 'p']);
        }
        match parse_i32_exec(head, 3) {
            None => Err(ParseError::InvalidQuery),
            Some(n) => {
                if ws.len() >= 2 {
                    let second = &ws[1];
                    if second.len() >= 2 && second[0] == '\'' && second[second.len() - 1]
                        == '\'' {
                        let pos_chars = copy_range(second, 1, second.len() - 1);
                        let pos = crate::text::string_from_chars(&pos_chars);
                        proof {
                            assert(second@.first() == '\'');
                            assert(second@.last() == '\'');
                        }
                        Ok(Query::Top(n, pos))
                    } else {
                        Err(ParseError::InvalidQuery)
                    }
                } else {
                    Err(ParseError::InvalidQuery)
                }
            },
        }
    } else {
        proof {
            if word_views(ws@)[0].len() >= 3 && word_views(ws@)[0].take(3) == seq![
                't',
                'o',
                'p',
            ] {
                assert(head@[0] == 't' && head@[1] == 'o' && head@[2] == 'p') by {
                    assert(head@.take(3)[0] == 't');
                    assert(head@.take(3)[1] == 'o');
                    assert(head@.take(3)[2] == 'p');
                }
            }
        }
        Err(ParseError::InvalidQuery)
    }
}

impl Query {
    /// Parses one query line, as [`parse_query`] does.
    pub fn try_from(value: &str) -> (r: Result<Query, ParseError>)
        ensures
            match spec_parse_query(value@) {
                SpecQuery::Player(nm) => r matches Ok(Query::Player(n)) && n@ == nm,
                SpecQuery::User(v) => r == Ok::<Query, ParseError>(Query::User(v)),
                SpecQuery::Top(n, p) => r matches Ok(Query::Top(m, pos)) && m == n && pos@ == p,
                SpecQuery::Tags(ts) => r matches Ok(Query::Tags(tags))
                    && crate::models::tag_views(tags@) == ts,
                SpecQuery::Invalid => r is Err,
            },
    {
        parse_query(value)
    }
}


} // verus!
