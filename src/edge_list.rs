//! The edge-list text format: one edge per line as two whitespace-separated
//! unsigned integers; `#` starts a comment line; any other line is skipped.
use vstd::prelude::*;

verus! {

/// ASCII whitespace as `split_whitespace` treats it.
pub open spec fn is_space(c: u8) -> bool {
    c == 32 || (9 <= c && c <= 13)
}

/// Left-to-right tokenizer: `cur` is the token being read, `acc` the tokens
/// completed before position `i`.
pub open spec fn scan(b: Seq<u8>, i: int, cur: Seq<u8>, acc: Seq<Seq<u8>>) -> Seq<Seq<u8>>
    decreases b.len() - i,
{
    if i >= b.len() {
        if cur.len() > 0 {
            acc.push(cur)
        } else {
            acc
        }
    } else if is_space(b[i]) {
        scan(b, i + 1, Seq::empty(), if cur.len() > 0 { acc.push(cur) } else { acc })
    } else {
        scan(b, i + 1, cur.push(b[i]), acc)
    }
}

/// The maximal runs of non-space bytes of `b`, in order.
pub open spec fn tokens(b: Seq<u8>) -> Seq<Seq<u8>> {
    scan(b, 0, Seq::empty(), Seq::empty())
}

pub open spec fn is_digit(c: u8) -> bool {
    48 <= c && c <= 57
}

/// Decimal value of a sequence of digits.
pub open spec fn digits_value(d: Seq<u8>) -> int
    decreases d.len(),
{
    if d.len() == 0 {
        0
    } else {
        10 * digits_value(d.drop_last()) + (d.last() - 48)
    }
}

/// The digits of a token: without a leading `+` if there is one.
pub open spec fn unsigned_digits(t: Seq<u8>) -> Seq<u8> {
    if t.len() > 0 && t[0] == 43 {
        t.drop_first()
    } else {
        t
    }
}

/// A token denotes a `u32`: an optional `+`, then one or more digits whose
/// value fits.
pub open spec fn is_u32_token(t: Seq<u8>) -> bool {
    let d = unsigned_digits(t);
    &&& d.len() > 0
    &&& forall|i: int| 0 <= i < d.len() ==> is_digit(#[trigger] d[i])
    &&& digits_value(d) <= u32::MAX
}

/// What a line of the edge list records: the edge of a line that is not a
/// comment and holds exactly two tokens, both `u32` values.
pub open spec fn edge_of_line(b: Seq<u8>) -> Option<(u32, u32)> {
    let ts = tokens(b);
    if b.len() > 0 && b[0] == 35 {
        None
    } else if ts.len() == 2 && is_u32_token(ts[0]) && is_u32_token(ts[1]) {
        Some(
            (digits_value(unsigned_digits(ts[0])) as u32, digits_value(unsigned_digits(ts[1])) as u32),
        )
    } else {
        None
    }
}

proof fn lemma_digits_value_prefix(d: Seq<u8>, j: int)
    requires
        0 <= j <= d.len(),
        forall|i: int| 0 <= i < d.len() ==> is_digit(#[trigger] d[i]),
    ensures
        digits_value(d.take(j)) <= digits_value(d),
        0 <= digits_value(d.take(j)),
    decreases d.len(),
{
    if j < d.len() {
        let init = d.drop_last();
        assert forall|i: int| 0 <= i < init.len() implies is_digit(#[trigger] init[i]) by {
            assert(init[i] == d[i]);
        }
        lemma_digits_value_prefix(init, j);
        assert(init.take(j) =~= d.take(j));
        lemma_digits_value_prefix(init, init.len() as int);
        assert(init.take(init.len() as int) =~= init);
    } else {
        assert(d.take(j) =~= d);
        lemma_digits_nonneg(d);
    }
}

proof fn lemma_digits_nonneg(d: Seq<u8>)
    requires
        forall|i: int| 0 <= i < d.len() ==> is_digit(#[trigger] d[i]),
    ensures
        0 <= digits_value(d),
    decreases d.len(),
{
    if d.len() > 0 {
        let init = d.drop_last();
        assert forall|i: int| 0 <= i < init.len() implies is_digit(#[trigger] init[i]) by {
            assert(init[i] == d[i]);
        }
        lemma_digits_nonneg(init);
        assert(is_digit(d[d.len() - 1]));
    }
}

/// Reads a token as a `u32` as `str::parse::<u32>` does: an optional `+`
/// then decimal digits, rejecting an empty digit string and overflow.
pub fn parse_u32_token(t: &[u8]) -> (r: Option<u32>)
    ensures
        r matches Some(v) ==> is_u32_token(t@) && v == digits_value(unsigned_digits(t@)),
        r is None ==> !is_u32_token(t@),
{
    let start: usize = if t.len() > 0 && t[0] == 43 { 1 } else { 0 };
    let ghost d = unsigned_digits(t@);
    proof {
        assert(d =~= t@.subrange(start as int, t@.len() as int));
    }
    if start >= t.len() {
        return None;
    }
    let mut value: u32 = 0;
    let mut j: usize = start;
    while j < t.len()
        invariant
            start <= j <= t.len(),
            d == t@.subrange(start as int, t@.len() as int),
            d == unsigned_digits(t@),
            forall|i: int| 0 <= i < j - start ==> is_digit(#[trigger] d[i]),
            value == digits_value(d.take(j - start)),
        decreases t.len() - j,
    {
        let c = t[j];
        proof {
            assert(d.take(j - start + 1).drop_last() =~= d.take(j - start));
            assert(d[j - start] == c);
        }
        if c < 48 || c > 57 {
            return None;
        }
        let digit = (c - 48) as u32;
        if value > (u32::MAX - digit) / 10 {
            proof {
                let v = value as int;
                let g = digit as int;
                assert(10 * v + g > u32::MAX) by (nonlinear_arith)
                    requires
                        v > (u32::MAX - g) / 10,
                        0 <= g <= 9,
                ;
                if is_u32_token(t@) {
                    lemma_digits_value_prefix(d, j - start + 1);
                    assert(digits_value(d.take(j - start + 1)) == 10 * v + g);
                }
            }
            return None;
        }
        proof {
            let v = value as int;
            let g = digit as int;
            assert(10 * v + g <= u32::MAX) by (nonlinear_arith)
                requires
                    v <= (u32::MAX - g) / 10,
                    0 <= g <= 9,
            ;
        }
        value = value * 10 + digit;
        j = j + 1;
    }
    proof {
        assert(d.take(j - start) =~= d);
    }
    Some(value)
}

/// Splits a line into its whitespace-separated tokens.
pub fn split_tokens(line: &[u8]) -> (r: Vec<Vec<u8>>)
    ensures
        r@.len() == tokens(line@).len(),
        forall|k: int| 0 <= k < r@.len() ==> (#[trigger] r@[k])@ == tokens(line@)[k],
{
    let ghost b = line@;
    let mut toks: Vec<Vec<u8>> = Vec::new();
    let ghost mut seen: Seq<Seq<u8>> = Seq::empty();
    let mut cur: Vec<u8> = Vec::new();
    let mut i: usize = 0;
    while i < line.len()
        invariant
            b == line@,
            i <= line.len(),
            toks@.len() == seen.len(),
            forall|k: int| 0 <= k < seen.len() ==> (#[trigger] toks@[k])@ == seen[k],
            scan(b, i as int, cur@, seen) == tokens(b),
        decreases line.len() - i,
    {
        let c = line[i];
        let ghost cur0 = cur@;
        let ghost seen0 = seen;
        proof {
            assert(b[i as int] == c);
        }
        if c == 32 || (9 <= c && c <= 13) {
            if cur.len() > 0 {
                let done = cur;
                proof {
                    seen = seen.push(done@);
                }
                toks.push(done);
                cur = Vec::new();
            }
        } else {
            cur.push(c);
        }
        proof {
            if is_space(c) {
                assert(cur@ =~= Seq::<u8>::empty());
                assert(seen == if cur0.len() > 0 { seen0.push(cur0) } else { seen0 });
            } else {
                assert(cur@ == cur0.push(c));
                assert(seen == seen0);
            }
            assert(scan(b, i as int, cur0, seen0) == scan(b, i + 1, cur@, seen));
        }
        i = i + 1;
    }
    if cur.len() > 0 {
        proof {
            seen = seen.push(cur@);
        }
        toks.push(cur);
    }
    proof {
        assert(seen == tokens(b));
    }
    toks
}

/// The edge recorded by one line of an edge list, if any: `None` for a
/// comment line, a line without exactly two tokens, or a token that is not a
/// `u32`.
pub fn parse_edge_line(line: &[u8]) -> (r: Option<(u32, u32)>)
    ensures
        r == edge_of_line(line@),
{
    if line.len() > 0 && line[0] == 35 {
        return None;
    }
    let toks = split_tokens(line);
    if toks.len() != 2 {
        return None;
    }
    let a = parse_u32_token(toks[0].as_slice());
    let c = parse_u32_token(toks[1].as_slice());
    match (a, c) {
        (Some(u), Some(v)) => Some((u, v)),
        _ => None,
    }
}

/// The members listed on one line of a community file: `None` when a token
/// is not a `u32`.
pub fn parse_member_line(line: &[u8]) -> (r: Option<Vec<u32>>)
    ensures
        r is Some <==> forall|k: int| 0 <= k < tokens(line@).len() ==> is_u32_token(#[trigger] tokens(line@)[k]),
        r matches Some(v) ==> v@.len() == tokens(line@).len() && forall|k: int|
            0 <= k < v@.len() ==> v@[k] == digits_value(unsigned_digits(#[trigger] tokens(line@)[k])),
{
    let toks = split_tokens(line);
    let ghost ts = tokens(line@);
    let mut out: Vec<u32> = Vec::new();
    let mut k: usize = 0;
    while k < toks.len()
        invariant
            k <= toks.len(),
            ts == tokens(line@),
            toks@.len() == ts.len(),
            forall|q: int| 0 <= q < toks@.len() ==> (#[trigger] toks@[q])@ == ts[q],
            out@.len() == k,
            forall|q: int| 0 <= q < k ==> is_u32_token(#[trigger] ts[q]),
            forall|q: int| 0 <= q < k ==> out@[q] == digits_value(unsigned_digits(#[trigger] ts[q])),
        decreases toks.len() - k,
    {
        match parse_u32_token(toks[k].as_slice()) {
            Some(v) => {
                out.push(v);
            },
            None => {
                return None;
            },
        }
        k = k + 1;
    }
    Some(out)
}

} // verus!
