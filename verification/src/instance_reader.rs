//! Reading the instance to solve: a comma-separated list of city ids,
//! given on the command line or in a file, resolved to positions in the
//! list of known cities.

use std::collections::HashMap;
use vstd::prelude::*;

use crate::text::{chars_of, push_chars};

verus! {

broadcast use vstd::std_specs::hash::group_hash_axioms;

/// Whitespace as `char::is_whitespace` has it: the Unicode `White_Space`
/// characters.
pub open spec fn is_whitespace(c: char) -> bool {
    let u = c as u32;
    ||| 0x9 <= u <= 0xd
    ||| u == 0x20
    ||| u == 0x85
    ||| u == 0xa0
    ||| u == 0x1680
    ||| 0x2000 <= u <= 0x200a
    ||| u == 0x2028
    ||| u == 0x2029
    ||| u == 0x202f
    ||| u == 0x205f
    ||| u == 0x3000
}

fn whitespace(c: char) -> (r: bool)
    ensures
        r == is_whitespace(c),
{
    let u = c as u32;
    (0x9 <= u && u <= 0xd) || u == 0x20 || u == 0x85 || u == 0xa0 || u == 0x1680 || (0x2000 <= u
        && u <= 0x200a) || u == 0x2028 || u == 0x2029 || u == 0x202f || u == 0x205f || u == 0x3000
}

/// The pieces of `s` between commas, as `str::split(',')` cuts it: one
/// more piece than there are commas.
pub open spec fn comma_pieces(s: Seq<char>) -> Seq<Seq<char>>
    decreases s.len(),
{
    if s.len() == 0 {
        seq![Seq::<char>::empty()]
    } else {
        let rest = comma_pieces(s.drop_last());
        if s.last() == ',' {
            rest.push(Seq::<char>::empty())
        } else {
            rest.update(rest.len() - 1, rest.last().push(s.last()))
        }
    }
}

/// `t` without its leading whitespace.
pub open spec fn trim_start(t: Seq<char>) -> Seq<char>
    decreases t.len(),
{
    if t.len() > 0 && is_whitespace(t[0]) {
        trim_start(t.drop_first())
    } else {
        t
    }
}

/// `t` without its trailing whitespace.
pub open spec fn trim_end(t: Seq<char>) -> Seq<char>
    decreases t.len(),
{
    if t.len() > 0 && is_whitespace(t.last()) {
        trim_end(t.drop_last())
    } else {
        t
    }
}

/// `t` without leading and trailing whitespace, as `str::trim` gives it.
pub open spec fn trimmed(t: Seq<char>) -> Seq<char> {
    trim_end(trim_start(t))
}

/// The trimmed pieces that are not empty, in order.
pub open spec fn tokens_of(pieces: Seq<Seq<char>>) -> Seq<Seq<char>>
    decreases pieces.len(),
{
    if pieces.len() == 0 {
        Seq::empty()
    } else {
        let rest = tokens_of(pieces.drop_last());
        let t = trimmed(pieces.last());
        if t.len() == 0 {
            rest
        } else {
            rest.push(t)
        }
    }
}

/// The tokens of an instance text: its comma-separated pieces, trimmed,
/// empty ones left out.
pub open spec fn instance_tokens(s: Seq<char>) -> Seq<Seq<char>> {
    tokens_of(comma_pieces(s))
}

/// An ASCII decimal digit.
pub open spec fn is_digit(c: char) -> bool {
    48 <= c as u32 <= 57
}

/// Value of a run of decimal digits.
pub open spec fn digits_value(d: Seq<char>) -> int
    decreases d.len(),
{
    if d.len() == 0 {
        0
    } else {
        10 * digits_value(d.drop_last()) + (d.last() as u32 - 48)
    }
}

/// Every character of `d` is an ASCII digit.
pub open spec fn all_digits(d: Seq<char>) -> bool {
    forall|i: int| 0 <= i < d.len() ==> is_digit(#[trigger] d[i])
}

/// `t` without its leading sign, if it has one.
pub open spec fn unsigned_part(t: Seq<char>) -> Seq<char> {
    if t.len() > 0 && (t[0] == '-' || t[0] == '+') {
        t.drop_first()
    } else {
        t
    }
}

/// The `i32` that `str::parse::<i32>` reads from `t`: an optional '+' or
/// '-', then one or more ASCII digits, the value within the range of
/// `i32`. `None` for anything else.
pub open spec fn parse_i32_spec(t: Seq<char>) -> Option<i32> {
    if t.len() == 0 {
        None
    } else {
        let body = unsigned_part(t);
        let v = if t[0] == '-' {
            -digits_value(body)
        } else {
            digits_value(body)
        };
        if body.len() == 0 || !all_digits(body) {
            None
        } else if i32::MIN <= v <= i32::MAX {
            Some(v as i32)
        } else {
            None
        }
    }
}

/// Position of the last of the first `upto` cities whose id is `id`.
pub open spec fn last_index(ids: Seq<i32>, id: i32, upto: int) -> Option<int>
    decreases upto,
{
    if upto <= 0 {
        None
    } else if ids[upto - 1] == id {
        Some(upto - 1)
    } else {
        last_index(ids, id, upto - 1)
    }
}

/// The token names a known city: it reads as an id, and a city has it.
pub open spec fn token_resolves(tok: Seq<char>, ids: Seq<i32>) -> bool {
    match parse_i32_spec(tok) {
        Some(id) => last_index(ids, id, ids.len() as int) is Some,
        None => false,
    }
}

/// Position of the city the token names; of several cities with the id,
/// the last one.
pub open spec fn resolved_position(tok: Seq<char>, ids: Seq<i32>) -> int {
    last_index(ids, parse_i32_spec(tok).unwrap(), ids.len() as int).unwrap()
}

/// The instance the text names, as positions in the list of cities, when
/// every token names a known city; empty otherwise.
pub open spec fn parsed_or_empty(text: Seq<char>, ids: Seq<i32>) -> Seq<usize> {
    let toks = instance_tokens(text);
    if forall|t: int| 0 <= t < toks.len() ==> token_resolves(#[trigger] toks[t], ids) {
        Seq::new(toks.len(), |t: int| resolved_position(toks[t], ids) as usize)
    } else {
        Seq::empty()
    }
}

/// Why an instance text was refused: the first token that does not name a
/// known city.
pub enum ParseError {
    /// The token does not read as a city id.
    InvalidCityId(String),
    /// The token reads as this id, which no known city has.
    UnknownCityId(i32),
}

proof fn lemma_comma_pieces_nonempty(s: Seq<char>)
    ensures
        comma_pieces(s).len() >= 1,
    decreases s.len(),
{
    if s.len() > 0 {
        lemma_comma_pieces_nonempty(s.drop_last());
    }
}

proof fn lemma_trim_start_at(t: Seq<char>, a: int)
    requires
        0 <= a <= t.len(),
        forall|k: int| 0 <= k < a ==> is_whitespace(#[trigger] t[k]),
        a == t.len() || !is_whitespace(t[a]),
    ensures
        trim_start(t) == t.subrange(a, t.len() as int),
    decreases a,
{
    if a == 0 {
        assert(t.subrange(0, t.len() as int) =~= t);
    } else {
        let u = t.drop_first();
        assert forall|k: int| 0 <= k < a - 1 implies is_whitespace(#[trigger] u[k]) by {
            assert(u[k] == t[k + 1]);
        }
        lemma_trim_start_at(u, a - 1);
        assert(u.subrange(a - 1, u.len() as int) =~= t.subrange(a, t.len() as int));
    }
}

proof fn lemma_trim_end_at(t: Seq<char>, b: int)
    requires
        0 <= b <= t.len(),
        forall|k: int| b <= k < t.len() ==> is_whitespace(#[trigger] t[k]),
        b == 0 || !is_whitespace(t[b - 1]),
    ensures
        trim_end(t) == t.subrange(0, b),
    decreases t.len() - b,
{
    if b == t.len() {
        assert(t.subrange(0, b) =~= t);
    } else {
        let u = t.drop_last();
        lemma_trim_end_at(u, b);
        assert(u.subrange(0, b) =~= t.subrange(0, b));
    }
}

proof fn lemma_trim_start_push_whitespace(x: Seq<char>, c: char)
    requires
        is_whitespace(c),
    ensures
        trim_start(x.push(c)) == (if trim_start(x).len() == 0 {
            Seq::<char>::empty()
        } else {
            trim_start(x).push(c)
        }),
    decreases x.len(),
{
    if x.len() == 0 {
        assert(x.push(c)[0] == c);
        assert(x.push(c).drop_first() =~= Seq::<char>::empty());
        assert(trim_start(Seq::<char>::empty()) == Seq::<char>::empty());
        assert(trim_start(x) == x);
    } else if is_whitespace(x[0]) {
        assert(x.push(c)[0] == x[0]);
        assert(x.push(c).drop_first() =~= x.drop_first().push(c));
        lemma_trim_start_push_whitespace(x.drop_first(), c);
    } else {
        assert(x.push(c)[0] == x[0]);
    }
}

proof fn lemma_trim_end_push_whitespace(y: Seq<char>, c: char)
    requires
        is_whitespace(c),
    ensures
        trim_end(y.push(c)) == trim_end(y),
{
    assert(y.push(c).drop_last() =~= y);
}

/// Whitespace after the last comma does not change the text's tokens.
proof fn lemma_tokens_ignore_trailing_whitespace(text: Seq<char>, c: char)
    requires
        is_whitespace(c),
    ensures
        instance_tokens(text.push(c)) == instance_tokens(text),
{
    let rest = comma_pieces(text);
    lemma_comma_pieces_nonempty(text);
    assert(text.push(c).drop_last() =~= text);
    assert(c != ',');
    let pieces = rest.update(rest.len() - 1, rest.last().push(c));
    assert(comma_pieces(text.push(c)) == pieces);
    assert(pieces.drop_last() =~= rest.drop_last());
    lemma_trim_start_push_whitespace(rest.last(), c);
    lemma_trim_end_push_whitespace(trim_start(rest.last()), c);
    assert(trimmed(pieces.last()) == trimmed(rest.last()));
}

/// The instance a text names depends on the text only through its tokens:
/// two texts whose comma-separated pieces trim to the same non-empty
/// tokens name the same instance, so whitespace around the ids (a
/// trailing newline included) changes nothing.
pub proof fn lemma_parse_depends_only_on_tokens(a: Seq<char>, b: Seq<char>, ids: Seq<i32>)
    requires
        instance_tokens(a) == instance_tokens(b),
    ensures
        parsed_or_empty(a, ids) == parsed_or_empty(b, ids),
{
}

/// A whitespace character (a newline, say) at the end of an instance text
/// does not change the instance it names; and when every token names a
/// known city, the instance is the position of the city each token names,
/// in the order of the tokens.
pub proof fn lemma_parse_ignores_trailing_whitespace(text: Seq<char>, c: char, ids: Seq<i32>)
    requires
        is_whitespace(c),
    ensures
        parsed_or_empty(text.push(c), ids) == parsed_or_empty(text, ids),
        (forall|t: int|
            0 <= t < instance_tokens(text).len() ==> token_resolves(
                #[trigger] instance_tokens(text)[t],
                ids,
            )) ==> {
            &&& parsed_or_empty(text.push(c), ids).len() == instance_tokens(text).len()
            &&& forall|t: int|
                0 <= t < instance_tokens(text).len() ==> #[trigger] parsed_or_empty(
                    text.push(c),
                    ids,
                )[t] == resolved_position(instance_tokens(text)[t], ids) as usize
        },
{
    lemma_tokens_ignore_trailing_whitespace(text, c);
    lemma_parse_depends_only_on_tokens(text.push(c), text, ids);
}

/// `trimmed(piece)`, computed.
fn trim_chars(piece: &Vec<char>) -> (r: Vec<char>)
    ensures
        r@ == trimmed(piece@),
{
    let n = piece.len();
    let mut a: usize = 0;
    while a < n && whitespace(piece[a])
        invariant
            a <= n,
            n == piece@.len(),
            forall|k: int| 0 <= k < a ==> is_whitespace(#[trigger] piece@[k]),
        decreases n - a,
    {
        a = a + 1;
    }
    proof {
        lemma_trim_start_at(piece@, a as int);
    }
    let ghost start = piece@.subrange(a as int, n as int);
    let mut b: usize = n;
    while b > a && whitespace(piece[b - 1])
        invariant
            a <= b <= n,
            n == piece@.len(),
            forall|k: int| b <= k < n ==> is_whitespace(#[trigger] piece@[k]),
        decreases b,
    {
        b = b - 1;
    }
    proof {
        assert forall|k: int| b - a <= k < start.len() implies is_whitespace(#[trigger] start[k]) by {
            assert(start[k] == piece@[k + a]);
        }
        if b > a {
            assert(start[b - a - 1] == piece@[b - 1]);
        }
        lemma_trim_end_at(start, b - a);
        assert(start.subrange(0, b - a) =~= piece@.subrange(a as int, b as int));
    }
    let mut r: Vec<char> = Vec::new();
    let mut k: usize = a;
    while k < b
        invariant
            a <= k <= b <= n,
            n == piece@.len(),
            r@ == piece@.subrange(a as int, k as int),
        decreases b - k,
    {
        r.push(piece[k]);
        k = k + 1;
        proof {
            assert(r@ =~= piece@.subrange(a as int, k as int));
        }
    }
    r
}

/// The tokens of the instance text `text`, as `instance_tokens` has them.
pub fn split_tokens(text: &str) -> (r: Vec<Vec<char>>)
    ensures
        r@.len() == instance_tokens(text@).len(),
        forall|t: int| 0 <= t < r@.len() ==> #[trigger] r@[t]@ == instance_tokens(text@)[t],
{
    let cs = chars_of(text);
    let mut tokens: Vec<Vec<char>> = Vec::new();
    let mut piece: Vec<char> = Vec::new();
    let mut i: usize = 0;
    proof {
        assert(cs@.take(0) =~= Seq::<char>::empty());
    }
    while i < cs.len()
        invariant
            i <= cs@.len(),
            cs@ == text@,
            comma_pieces(cs@.take(i as int)).len() >= 1,
            piece@ == comma_pieces(cs@.take(i as int)).last(),
            tokens@.len() == tokens_of(comma_pieces(cs@.take(i as int)).drop_last()).len(),
            forall|t: int|
                0 <= t < tokens@.len() ==> #[trigger] tokens@[t]@ == tokens_of(
                    comma_pieces(cs@.take(i as int)).drop_last(),
                )[t],
        decreases cs@.len() - i,
    {
        let c = cs[i];
        let ghost prefix = cs@.take(i as int);
        let ghost next = cs@.take(i + 1);
        proof {
            assert(next.drop_last() =~= prefix);
            assert(next.last() == c);
            lemma_comma_pieces_nonempty(prefix);
        }
        if c == ',' {
            let t = trim_chars(&piece);
            proof {
                let pieces = comma_pieces(prefix);
                assert(comma_pieces(next) == pieces.push(Seq::<char>::empty()));
                assert(comma_pieces(next).drop_last() =~= pieces);
                assert(pieces.drop_last().push(pieces.last()) =~= pieces);
            }
            if t.len() > 0 {
                tokens.push(t);
            }
            piece = Vec::new();
        } else {
            piece.push(c);
            proof {
                let pieces = comma_pieces(prefix);
                assert(comma_pieces(next) == pieces.update(
                    pieces.len() - 1,
                    pieces.last().push(c),
                ));
                assert(comma_pieces(next).drop_last() =~= pieces.drop_last());
            }
        }
        i = i + 1;
    }
    let t = trim_chars(&piece);
    proof {
        assert(cs@.take(i as int) =~= text@);
        let pieces = comma_pieces(text@);
        assert(pieces.drop_last().push(pieces.last()) =~= pieces);
        assert(tokens_of(pieces) == {
            let rest = tokens_of(pieces.drop_last());
            if trimmed(pieces.last()).len() == 0 {
                rest
            } else {
                rest.push(trimmed(pieces.last()))
            }
        });
    }
    if t.len() > 0 {
        tokens.push(t);
    }
    tokens
}

proof fn lemma_digits_value_nonneg(d: Seq<char>)
    requires
        forall|k: int| 0 <= k < d.len() ==> is_digit(#[trigger] d[k]),
    ensures
        0 <= digits_value(d),
    decreases d.len(),
{
    if d.len() > 0 {
        lemma_digits_value_nonneg(d.drop_last());
        assert(is_digit(d[d.len() - 1]));
    }
}

proof fn lemma_digits_value_grows(d: Seq<char>, i: int, j: int)
    requires
        0 <= i <= j <= d.len(),
        forall|k: int| 0 <= k < d.len() ==> is_digit(#[trigger] d[k]),
    ensures
        digits_value(d.take(i)) <= digits_value(d.take(j)),
    decreases j,
{
    if j > i {
        lemma_digits_value_grows(d, i, j - 1);
        assert(d.take(j).drop_last() =~= d.take(j - 1));
        assert(forall|k: int| 0 <= k < j - 1 ==> is_digit(#[trigger] d.take(j - 1)[k]));
        lemma_digits_value_nonneg(d.take(j - 1));
        assert(is_digit(d[j - 1]));
    }
}

/// `parse_i32_spec(tok)`, computed.
pub fn parse_i32(tok: &Vec<char>) -> (r: Option<i32>)
    ensures
        r == parse_i32_spec(tok@),
{
    let n = tok.len();
    if n == 0 {
        return None;
    }
    let first = tok[0];
    let negative = first == '-';
    let start: usize = if first == '-' || first == '+' {
        1
    } else {
        0
    };
    let ghost body = unsigned_part(tok@);
    if start == n {
        return None;
    }
    let mut acc: u64 = 0;
    let mut k: usize = start;
    while k < n
        invariant
            start <= k <= n,
            n == tok@.len(),
            n > 0,
            first == tok@[0],
            start == (if first == '-' || first == '+' {
                1usize
            } else {
                0usize
            }),
            start < n,
            body == tok@.subrange(start as int, n as int),
            body == unsigned_part(tok@),
            negative == (first == '-'),
            acc == digits_value(body.take(k - start)),
            acc <= 2147483648,
            forall|i: int| 0 <= i < k - start ==> is_digit(#[trigger] body[i]),
        decreases n - k,
    {
        let c = tok[k];
        let u = c as u32;
        proof {
            assert(body[k - start] == c);
            assert(body.take(k - start + 1).drop_last() =~= body.take(k - start));
        }
        if u < 48 || u > 57 {
            proof {
                assert(!is_digit(body[k - start]));
                assert(!all_digits(body));
            }
            return None;
        }
        let next = acc * 10 + (u - 48) as u64;
        proof {
            assert(body.take(k - start + 1).last() == c);
            assert(digits_value(body.take(k - start + 1)) == next);
        }
        if next > 2147483648 {
            proof {
                if all_digits(body) {
                    lemma_digits_value_grows(body, k - start + 1, body.len() as int);
                    assert(body.take(body.len() as int) =~= body);
                    assert(digits_value(body) > 2147483648);
                    assert(body.len() > 0);
                }
                assert(parse_i32_spec(tok@) is None);
            }
            return None;
        }
        acc = next;
        k = k + 1;
    }
    proof {
        assert(body.take(n - start) =~= body);
    }
    if negative {
        Some((-(acc as i64)) as i32)
    } else if acc <= 2147483647 {
        Some(acc as i32)
    } else {
        None
    }
}

/// Parses the comma-separated list of city ids `arg` into the positions,
/// in `city_ids`, of the cities it names, in the order it names them.
/// Tokens are trimmed and empty ones skipped. Fails on the first token that
/// does not read as an id, or whose id no city has. Of several cities with
/// the same id, the last one is taken.
pub fn parse_instance(arg: &str, city_ids: &[i32]) -> (r: Result<Vec<usize>, ParseError>)
    ensures
        match r {
            Ok(v) => {
                &&& forall|t: int|
                    0 <= t < instance_tokens(arg@).len() ==> token_resolves(
                        #[trigger] instance_tokens(arg@)[t],
                        city_ids@,
                    )
                &&& v@.len() == instance_tokens(arg@).len()
                &&& forall|t: int|
                    0 <= t < v@.len() ==> #[trigger] v@[t] as int == resolved_position(
                        instance_tokens(arg@)[t],
                        city_ids@,
                    )
            },
            Err(e) => exists|t: int|
                {
                    &&& 0 <= t < instance_tokens(arg@).len()
                    &&& forall|u: int|
                        0 <= u < t ==> token_resolves(
                            #[trigger] instance_tokens(arg@)[u],
                            city_ids@,
                        )
                    &&& !token_resolves(#[trigger] instance_tokens(arg@)[t], city_ids@)
                    &&& match e {
                        ParseError::InvalidCityId(s) => parse_i32_spec(instance_tokens(arg@)[t])
                            is None && s@ == instance_tokens(arg@)[t],
                        ParseError::UnknownCityId(id) => parse_i32_spec(instance_tokens(arg@)[t])
                            == Some(id) && last_index(city_ids@, id, city_ids@.len() as int)
                            is None,
                    }
                },
        },
{
    let mut index_by_id: HashMap<i32, usize> = HashMap::new();
    let mut c: usize = 0;
    while c < city_ids.len()
        invariant
            c <= city_ids@.len(),
            forall|id: i32|
                #![trigger last_index(city_ids@, id, c as int)]
                match last_index(city_ids@, id, c as int) {
                    Some(p) => index_by_id@.contains_key(id) && index_by_id@[id] == p,
                    None => !index_by_id@.contains_key(id),
                },
        decreases city_ids@.len() - c,
    {
        index_by_id.insert(city_ids[c], c);
        proof {
            assert forall|id: i32|
                #![trigger last_index(city_ids@, id, c + 1)]
                match last_index(city_ids@, id, c + 1) {
                    Some(p) => index_by_id@.contains_key(id) && index_by_id@[id] == p,
                    None => !index_by_id@.contains_key(id),
                } by {
                assert(last_index(city_ids@, id, c as int) == last_index(city_ids@, id, c as int));
            }
        }
        c = c + 1;
    }
    let tokens = split_tokens(arg);
    let ghost toks = instance_tokens(arg@);
    let mut out: Vec<usize> = Vec::new();
    let mut t: usize = 0;
    while t < tokens.len()
        invariant
            t <= tokens@.len(),
            tokens@.len() == toks.len(),
            toks == instance_tokens(arg@),
            forall|k: int| 0 <= k < tokens@.len() ==> #[trigger] tokens@[k]@ == toks[k],
            forall|id: i32|
                #![trigger last_index(city_ids@, id, city_ids@.len() as int)]
                match last_index(city_ids@, id, city_ids@.len() as int) {
                    Some(p) => index_by_id@.contains_key(id) && index_by_id@[id] == p,
                    None => !index_by_id@.contains_key(id),
                },
            out@.len() == t,
            forall|u: int| 0 <= u < t ==> token_resolves(#[trigger] toks[u], city_ids@),
            forall|u: int|
                0 <= u < t ==> #[trigger] out@[u] as int == resolved_position(toks[u], city_ids@),
        decreases tokens@.len() - t,
    {
        let tok = &tokens[t];
        proof {
            assert(tok@ == toks[t as int]);
        }
        match parse_i32(tok) {
            None => {
                let mut s = String::new();
                push_chars(&mut s, tok.as_slice());
                proof {
                    assert(!token_resolves(toks[t as int], city_ids@));
                }
                return Err(ParseError::InvalidCityId(s));
            },
            Some(id) => {
                proof {
                    assert(last_index(city_ids@, id, city_ids@.len() as int) == last_index(
                        city_ids@,
                        id,
                        city_ids@.len() as int,
                    ));
                }
                match index_by_id.get(&id) {
                    None => {
                        proof {
                            assert(!token_resolves(toks[t as int], city_ids@));
                        }
                        return Err(ParseError::UnknownCityId(id));
                    },
                    Some(p) => {
                        out.push(*p);
                    },
                }
            },
        }
        t = t + 1;
    }
    Ok(out)
}

/// Where the instance comes from: the text given on the command line, or
/// the file at the given path.
pub struct InstanceReader {
    raw_instance: Option<String>,
    path_to_instance: Option<String>,
}

impl InstanceReader {
    /// The instance text given directly, if any.
    pub closed spec fn raw(&self) -> Option<Seq<char>> {
        match self.raw_instance {
            Some(s) => Some(s@),
            None => None,
        }
    }

    /// The path of the instance file, if any.
    pub closed spec fn path(&self) -> Option<Seq<char>> {
        match self.path_to_instance {
            Some(s) => Some(s@),
            None => None,
        }
    }

    /// Takes the instance text when one is given, else the path of the
    /// instance file. One of the two must be given.
    pub fn new(instance: Option<String>, instance_path: Option<String>) -> (r: InstanceReader)
        requires
            instance is Some || instance_path is Some,
        ensures
            instance matches Some(text) ==> r.raw() == Some(text@) && r.path() is None,
            instance is None ==> r.raw() is None && r.path() == Some(instance_path->0@),
    {
        match instance {
            Some(text) => InstanceReader { raw_instance: Some(text), path_to_instance: None },
            None => InstanceReader { raw_instance: None, path_to_instance: instance_path },
        }
    }

    /// The file whose contents `get_parsed_instance` parses: the path, when
    /// it is the only source given.
    pub fn instance_file(&self) -> (r: Option<String>)
        ensures
            match r {
                Some(p) => self.path() == Some(p@) && self.raw() is None,
                None => self.path() is None || self.raw() is Some,
            },
    {
        match (&self.path_to_instance, &self.raw_instance) {
            (Some(path), None) => Some(path.clone()),
            _ => None,
        }
    }

    /// The instance as positions in `city_ids`: the text given directly,
    /// or else the contents of the instance file (`file_contents`, `None`
    /// when it could not be read), parsed by `parse_instance`. Empty when
    /// both or neither source is given, when the file could not be read,
    /// or when the text does not parse.
    pub fn get_parsed_instance(&self, city_ids: &[i32], file_contents: Option<&str>) -> (r: Vec<
        usize,
    >)
        ensures
            r@ == match (self.path(), self.raw()) {
                (Some(_), None) => match file_contents {
                    Some(text) => parsed_or_empty(text@, city_ids@),
                    None => Seq::<usize>::empty(),
                },
                (None, Some(text)) => parsed_or_empty(text, city_ids@),
                _ => Seq::<usize>::empty(),
            },
    {
        match (&self.path_to_instance, &self.raw_instance) {
            (Some(_), Some(_)) => Vec::new(),
            (Some(_), None) => match file_contents {
                Some(text) => parse_or_empty(text, city_ids),
                None => Vec::new(),
            },
            (None, Some(raw)) => parse_or_empty(raw.as_str(), city_ids),
            (None, None) => Vec::new(),
        }
    }
}

fn parse_or_empty(text: &str, city_ids: &[i32]) -> (r: Vec<usize>)
    ensures
        r@ == parsed_or_empty(text@, city_ids@),
{
    match parse_instance(text, city_ids) {
        Ok(v) => {
            proof {
                assert(v@ =~= parsed_or_empty(text@, city_ids@));
            }
            v
        },
        Err(_) => Vec::new(),
    }
}

} // verus!
