//! Parsing of wire text into exact values.
//!
//! Exchange payloads carry prices as decimal strings and the command line
//! carries thresholds as integer strings; both are decoded here, failing
//! closed on any malformed input instead of propagating untyped values.

use vstd::prelude::*;

verus! {

use vstd::string::StrSliceExecFns;
use crate::dec::{Dec, Rat};

/// A decimal digit character.
pub open spec fn is_digit(c: char) -> bool {
    48 <= c as u32 <= 57
}

/// Numeric value of a digit character.
pub open spec fn digit_val(c: char) -> int {
    c as u32 - 48
}

/// Every character of the sequence is a digit.
pub open spec fn all_digits(s: Seq<char>) -> bool {
    forall|i: int| 0 <= i < s.len() ==> is_digit(#[trigger] s[i])
}

/// Value of a digit string, most significant digit first.
pub open spec fn digits_val(s: Seq<char>) -> int
    decreases s.len(),
{
    if s.len() == 0 {
        0
    } else {
        digits_val(s.drop_last()) * 10 + digit_val(s.last())
    }
}

/// Powers of ten.
pub open spec fn pow10(k: nat) -> int
    decreases k,
{
    if k == 0 {
        1
    } else {
        10 * pow10((k - 1) as nat)
    }
}

/// Index of the first dot, or the length when there is none.
pub open spec fn first_dot(s: Seq<char>) -> int
    decreases s.len(),
{
    if s.len() == 0 {
        0
    } else if s[0] == '.' {
        0
    } else {
        1 + first_dot(s.skip(1))
    }
}

/// The exact value denoted by an unsigned decimal string: digits, optionally
/// followed by a dot and further digits; anything else denotes nothing.
pub open spec fn parse_unsigned(s: Seq<char>) -> Option<Rat> {
    let k = first_dot(s);
    if k == s.len() {
        if s.len() >= 1 && all_digits(s) {
            Some(Rat { n: digits_val(s), d: 1 })
        } else {
            None
        }
    } else {
        let ip = s.take(k);
        let fp = s.skip(k + 1);
        if ip.len() >= 1 && fp.len() >= 1 && all_digits(ip) && all_digits(fp) {
            Some(
                Rat {
                    n: digits_val(ip) * pow10(fp.len()) + digits_val(fp),
                    d: pow10(fp.len()),
                },
            )
        } else {
            None
        }
    }
}

/// The exact value denoted by a decimal string: an optional minus sign in
/// front of an unsigned decimal string.
pub open spec fn parse_val(s: Seq<char>) -> Option<Rat> {
    if s.len() >= 1 && s[0] == '-' {
        match parse_unsigned(s.skip(1)) {
            Some(v) => Some(Rat { n: -v.n, d: v.d }),
            None => None,
        }
    } else {
        parse_unsigned(s)
    }
}

/// The string denotes a value that the 64-bit fraction can represent.
pub open spec fn parses(s: Seq<char>) -> bool {
    parse_val(s) matches Some(v) && -(i64::MAX as int) <= v.n <= i64::MAX as int && v.d
        <= i64::MAX as int
}

/// The value of a digit string is non-negative.
proof fn lemma_digits_val_nonneg(s: Seq<char>)
    requires
        all_digits(s),
    ensures
        digits_val(s) >= 0,
    decreases s.len(),
{
    if s.len() > 0 {
        let sd = s.drop_last();
        assert(all_digits(sd)) by {
            assert(forall|i: int| 0 <= i < sd.len() ==> sd[i] == s[i]);
        }
        lemma_digits_val_nonneg(sd);
    }
}

/// A digit string is worth at least any of its prefixes.
proof fn lemma_digits_prefix_le(s: Seq<char>, j: int)
    requires
        all_digits(s),
        0 <= j <= s.len(),
    ensures
        digits_val(s.take(j)) <= digits_val(s),
    decreases s.len() - j,
{
    if j < s.len() {
        assert(s.take(j + 1).drop_last() =~= s.take(j));
        assert(all_digits(s.take(j))) by {
            assert(forall|i: int| 0 <= i < j ==> s.take(j)[i] == s[i]);
        }
        lemma_digits_val_nonneg(s.take(j));
        assert(digits_val(s.take(j + 1)) == digits_val(s.take(j)) * 10 + digit_val(s[j]));
        lemma_digits_prefix_le(s, j + 1);
    } else {
        assert(s.take(j) =~= s);
    }
}

/// Splitting a digit string splits its value by the matching power of ten.
proof fn lemma_digits_concat(a: Seq<char>, b: Seq<char>)
    ensures
        digits_val(a + b) == digits_val(a) * pow10(b.len()) + digits_val(b),
    decreases b.len(),
{
    if b.len() == 0 {
        assert(a + b =~= a);
    } else {
        let bd = b.drop_last();
        assert((a + b).drop_last() =~= a + bd);
        assert((a + b).last() == b.last());
        lemma_digits_concat(a, bd);
        assert((digits_val(a) * pow10(bd.len()) + digits_val(bd)) * 10 + digit_val(b.last())
            == digits_val(a) * (10 * pow10(bd.len())) + (digits_val(bd) * 10 + digit_val(
            b.last(),
        ))) by (nonlinear_arith);
    }
}

/// Powers of ten are positive and increasing.
proof fn lemma_pow10_mono(j: nat, k: nat)
    requires
        j <= k,
    ensures
        1 <= pow10(j) <= pow10(k),
    decreases k,
{
    if k == 0 {
    } else if j == k {
        lemma_pow10_mono((k - 1) as nat, (k - 1) as nat);
    } else {
        lemma_pow10_mono(j, (k - 1) as nat);
    }
}

/// Where the first dot stands: not earlier, and nothing before it is a dot.
proof fn lemma_first_dot_props(s: Seq<char>)
    ensures
        0 <= first_dot(s) <= s.len(),
        first_dot(s) < s.len() ==> s[first_dot(s)] == '.',
        forall|j: int| 0 <= j < first_dot(s) ==> s[j] != '.',
    decreases s.len(),
{
    if s.len() > 0 && s[0] != '.' {
        lemma_first_dot_props(s.skip(1));
        assert forall|j: int| 0 <= j < first_dot(s) implies s[j] != '.' by {
            if j >= 1 {
                assert(s.skip(1)[j - 1] == s[j]);
                assert(s.skip(1)[j - 1] != '.');
            }
        }
    }
}

/// Numeric value of the character at `i` if it is a digit.
fn digit_at(s: &str, i: usize) -> (r: Option<u64>)
    requires
        i < s@.len(),
    ensures
        r is Some <==> is_digit(s@[i as int]),
        r matches Some(d) ==> d == digit_val(s@[i as int]),
{
    let c: char = s.get_char(i);
    let u: u32 = c as u32;
    if 48 <= u && u <= 57 {
        Some((u - 48) as u64)
    } else {
        None
    }
}

/// Parse a decimal string into an exact fraction.
///
/// Mirrors `parse_val`: `None` exactly when the string is malformed or the
/// denoted value does not fit the 64-bit fraction representation.
pub fn parse_dec(s: &str) -> (r: Option<Dec>)
    ensures
        parse_val(s@) is None ==> r is None,
        parse_val(s@) matches Some(v) ==> {
            &&& (r is Some <==> (-(i64::MAX as int) <= v.n <= i64::MAX as int && v.d <= i64::MAX
                as int))
            &&& (r matches Some(q) ==> q.wf() && q@ == v)
        },
{
    let len: usize = s.unicode_len();
    let neg: bool = if len >= 1 {
        s.get_char(0) == '-'
    } else {
        false
    };
    let start: usize = if neg {
        1
    } else {
        0
    };
    let ghost body: Seq<char> = if neg {
        s@.skip(1)
    } else {
        s@
    };
    proof {
        lemma_first_dot_props(body);
    }
    let limit: u64 = 9_223_372_036_854_775_807;
    let mut i: usize = start;
    let mut acc: u64 = 0;
    while i < len
        invariant_except_break
            len == s@.len(),
            start <= i <= len,
            start == (if neg {
                1int
            } else {
                0int
            }),
            neg ==> len >= 1 && s@[0] == '-',
            !neg ==> (len >= 1 ==> s@[0] != '-'),
            body == (if neg {
                s@.skip(1)
            } else {
                s@
            }),
            limit == i64::MAX as u64,
            acc <= limit,
            all_digits(body.take(i - start)),
            acc == digits_val(body.take(i - start)),
        ensures
            len == s@.len(),
            start <= i <= len,
            limit == i64::MAX as u64,
            acc <= limit,
            all_digits(body.take(i - start)),
            acc == digits_val(body.take(i - start)),
            i < len ==> !is_digit(s@[i as int]),
        decreases len - i,
    {
        match digit_at(s, i) {
            Some(d) => {
                proof {
                    assert(body.take(i - start + 1).drop_last() =~= body.take(i - start));
                    assert(body.take(i - start + 1).last() == s@[i as int]);
                }
                proof {
                    assert(d <= 9);
                    assert(all_digits(body.take(i - start + 1))) by {
                        assert(forall|t: int|
                            0 <= t < i - start ==> #[trigger] body.take(i - start + 1)[t]
                                == body.take(i - start)[t]);
                    }
                }
                if acc > (limit - d) / 10 {
                    proof {
                        vstd::arithmetic::div_mod::lemma_fundamental_div_mod(
                            limit as int - d,
                            10,
                        );
                        assert(acc * 10 + d > limit);
                        lemma_overflow_none(s@, body, neg, i - start + 1);
                    }
                    return None;
                }
                acc = acc * 10 + d;
                i += 1;
            },
            None => {
                break ;
            },
        }
    }
    let ghost int_part = body.take(i - start);
    if i == start {
        proof {
            if start < len {
                if neg {
                    assert(body[0] == s@.skip(1)[0]);
                }
                assert(body[0] == s@[start as int]);
            }
            lemma_empty_int_none(s@, body, neg);
        }
        return None;
    }
    if i == len {
        proof {
            assert(int_part =~= body);
            assert(all_digits(body));
            assert forall|j: int| 0 <= j < body.len() implies body[j] != '.' by {
                assert(is_digit(body[j]));
            }
            if first_dot(body) < body.len() {
                assert(body[first_dot(body)] == '.');
            }
        }
        let n: i64 = if neg {
            -(acc as i64)
        } else {
            acc as i64
        };
        return Some(Dec { n, d: 1 });
    }
    let dot: char = s.get_char(i);
    proof {
        if neg {
            assert(body[i - start] == s@.skip(1)[i - 1]);
        }
        assert(body[i - start] == s@[i as int]);
    }
    if dot != '.' {
        proof {
            lemma_junk_none(s@, body, neg, i - start);
        }
        return None;
    }
    proof {
        // the first dot of the body is exactly at i - start
        if first_dot(body) < i - start {
            assert(body.take(i - start)[first_dot(body)] == body[first_dot(body)]);
            assert(is_digit(body.take(i - start)[first_dot(body)]));
        }
        assert(first_dot(body) == i - start);
    }
    let ghost k = i - start;
    let ghost fp = body.skip(k + 1);
    i += 1;
    let frac_start: usize = i;
    let mut den: u64 = 1;
    while i < len
        invariant_except_break
            len == s@.len(),
            start <= len,
            frac_start <= i <= len,
            start == (if neg {
                1int
            } else {
                0int
            }),
            neg ==> len >= 1 && s@[0] == '-',
            !neg ==> (len >= 1 ==> s@[0] != '-'),
            body == (if neg {
                s@.skip(1)
            } else {
                s@
            }),
            k == frac_start - start - 1,
            0 <= k < body.len(),
            first_dot(body) == k,
            int_part == body.take(k),
            all_digits(int_part),
            int_part.len() >= 1,
            fp == body.skip(k + 1),
            limit == i64::MAX as u64,
            acc <= limit,
            den <= limit,
            all_digits(fp.take(i - frac_start)),
            acc == digits_val(int_part + fp.take(i - frac_start)),
            den == pow10((i - frac_start) as nat),
        ensures
            len == s@.len(),
            frac_start <= i <= len,
            limit == i64::MAX as u64,
            neg ==> len >= 1 && s@[0] == '-',
            !neg ==> (len >= 1 ==> s@[0] != '-'),
            acc <= limit,
            den <= limit,
            all_digits(fp.take(i - frac_start)),
            acc == digits_val(int_part + fp.take(i - frac_start)),
            den == pow10((i - frac_start) as nat),
            i < len ==> !is_digit(s@[i as int]),
        decreases len - i,
    {
        match digit_at(s, i) {
            Some(d) => {
                proof {
                    assert(fp.take(i - frac_start + 1).drop_last() =~= fp.take(i - frac_start));
                    assert(fp.take(i - frac_start + 1).last() == s@[i as int]);
                    assert((int_part + fp.take(i - frac_start + 1)).drop_last() =~= int_part
                        + fp.take(i - frac_start));
                    assert((int_part + fp.take(i - frac_start + 1)).last() == s@[i as int]);
                }
                proof {
                    assert(d <= 9);
                    assert(all_digits(fp.take(i - frac_start + 1))) by {
                        assert(forall|t: int|
                            0 <= t < i - frac_start ==> #[trigger] fp.take(i - frac_start + 1)[t]
                                == fp.take(i - frac_start)[t]);
                    }
                }
                if acc > (limit - d) / 10 {
                    proof {
                        vstd::arithmetic::div_mod::lemma_fundamental_div_mod(
                            limit as int - d,
                            10,
                        );
                        assert(acc * 10 + d > limit);
                        lemma_frac_overflow_none(s@, body, neg, k, i - frac_start + 1);
                    }
                    return None;
                }
                if den > limit / 10 {
                    proof {
                        vstd::arithmetic::div_mod::lemma_fundamental_div_mod(limit as int, 10);
                        assert(den * 10 > limit);
                        lemma_den_overflow_none(s@, body, neg, k, (i - frac_start + 1) as nat);
                    }
                    return None;
                }
                acc = acc * 10 + d;
                den = den * 10;
                i += 1;
            },
            None => {
                break ;
            },
        }
    }
    if i < len || i == frac_start {
        proof {
            if i < len {
                // a non-digit inside the fraction part
                if neg {
                    assert(body[i - start] == s@.skip(1)[i - 1]);
                }
                assert(body[i - start] == s@[i as int]);
                assert(fp[i - frac_start] == body[i - start]);
            }
        }
        return None;
    }
    proof {
        assert(fp.take(i - frac_start) =~= fp);
        assert(all_digits(fp));
        assert(acc == digits_val(int_part + fp));
        lemma_digits_concat(int_part, fp);
        assert(body.take(k) == int_part);
        assert(int_part.len() >= 1);
        assert(fp.len() >= 1);
        assert(den == pow10(fp.len() as nat));
        assert(parse_unsigned(body) == Some(
            Rat {
                n: digits_val(int_part) * pow10(fp.len()) + digits_val(fp),
                d: pow10(fp.len()),
            },
        ));
        assert(acc == digits_val(int_part) * pow10(fp.len()) + digits_val(fp));
        lemma_pow10_mono(0, fp.len() as nat);
        assert(1 <= den);
        assert(parse_val(s@) is Some);
    }
    let n: i64 = if neg {
        -(acc as i64)
    } else {
        acc as i64
    };
    Some(Dec { n, d: den as i64 })
}

/// If the digits scanned so far already exceed the representable range, the
/// whole string denotes nothing representable.
proof fn lemma_overflow_none(s: Seq<char>, body: Seq<char>, neg: bool, j: int)
    requires
        body == (if neg {
            s.skip(1)
        } else {
            s
        }),
        neg ==> s.len() >= 1 && s[0] == '-',
        !neg ==> (s.len() >= 1 ==> s[0] != '-'),
        0 <= j <= body.len(),
        all_digits(body.take(j)),
        digits_val(body.take(j)) > i64::MAX as int,
    ensures
        parse_val(s) matches Some(v) ==> (v.n > i64::MAX as int || v.n < -(i64::MAX as int)),
{
    lemma_first_dot_props(body);
    if parse_val(s) is Some {
        let k = first_dot(body);
        assert(parse_val(s) == (if neg {
            match parse_unsigned(body) {
                Some(v) => Some(Rat { n: -v.n, d: v.d }),
                None => None,
            }
        } else {
            parse_unsigned(body)
        }));
        let u = parse_unsigned(body)->Some_0;
        if k == body.len() {
            lemma_digits_prefix_le(body, j);
        } else {
            let ip = body.take(k);
            let fp = body.skip(k + 1);
            // digits scanned lie inside the integer part: a dot is no digit
            assert(j <= k) by {
                if j > k {
                    assert(is_digit(body.take(j)[k]));
                }
            }
            assert(body.take(j) =~= ip.take(j));
            lemma_digits_prefix_le(ip, j);
            lemma_digits_val_nonneg(fp);
            lemma_pow10_mono(0, fp.len());
            assert(digits_val(ip) * pow10(fp.len()) >= digits_val(ip) * 1) by (nonlinear_arith)
                requires
                    pow10(fp.len()) >= 1,
                    digits_val(ip) >= 0,
            ;
            lemma_digits_val_nonneg(ip);
        }
    }
}

/// A string whose body does not begin with a digit denotes nothing.
proof fn lemma_empty_int_none(s: Seq<char>, body: Seq<char>, neg: bool)
    requires
        body == (if neg {
            s.skip(1)
        } else {
            s
        }),
        neg ==> s.len() >= 1 && s[0] == '-',
        !neg ==> (s.len() >= 1 ==> s[0] != '-'),
        body.len() >= 1 ==> !is_digit(body[0]),
    ensures
        parse_val(s) is None,
{
    lemma_first_dot_props(body);
    if body.len() >= 1 {
        let k = first_dot(body);
        if k < body.len() && k >= 1 {
            assert(body.take(k)[0] == body[0]);
        }
    }
}

/// A non-digit, non-dot character after the integer digits makes the string
/// denote nothing.
proof fn lemma_junk_none(s: Seq<char>, body: Seq<char>, neg: bool, j: int)
    requires
        body == (if neg {
            s.skip(1)
        } else {
            s
        }),
        neg ==> s.len() >= 1 && s[0] == '-',
        !neg ==> (s.len() >= 1 ==> s[0] != '-'),
        0 <= j < body.len(),
        all_digits(body.take(j)),
        !is_digit(body[j]),
        body[j] != '.',
    ensures
        parse_val(s) is None,
{
    lemma_first_dot_props(body);
    let k = first_dot(body);
    if k < j {
        assert(is_digit(body.take(j)[k]));
    }
    if k == body.len() {
        assert(!all_digits(body));
    } else {
        // k > j: the integer part holds the junk character
        assert(body.take(k)[j] == body[j]);
        assert(!all_digits(body.take(k)));
    }
}

/// If the combined digits scanned so far already exceed the representable
/// range, the whole string denotes nothing representable.
proof fn lemma_frac_overflow_none(s: Seq<char>, body: Seq<char>, neg: bool, k: int, fj: int)
    requires
        body == (if neg {
            s.skip(1)
        } else {
            s
        }),
        neg ==> s.len() >= 1 && s[0] == '-',
        !neg ==> (s.len() >= 1 ==> s[0] != '-'),
        first_dot(body) == k,
        0 <= k < body.len(),
        all_digits(body.take(k)),
        body.take(k).len() >= 1,
        0 <= fj <= body.skip(k + 1).len(),
        all_digits(body.skip(k + 1).take(fj)),
        digits_val(body.take(k) + body.skip(k + 1).take(fj)) > i64::MAX as int,
    ensures
        parse_val(s) matches Some(v) ==> (v.n > i64::MAX as int || v.n < -(i64::MAX as int)),
{
    if parse_val(s) is Some {
        let ip = body.take(k);
        let fp = body.skip(k + 1);
        // with the string valid, every fraction character is a digit
        assert(all_digits(fp));
        assert(all_digits(ip + fp)) by {
            assert(forall|t: int| 0 <= t < ip.len() ==> (ip + fp)[t] == ip[t]);
            assert(forall|t: int|
                ip.len() <= t < ip.len() + fp.len() ==> (ip + fp)[t] == fp[t - ip.len()]);
        }
        assert(ip + fp.take(fj) =~= (ip + fp).take(ip.len() + fj));
        lemma_digits_prefix_le(ip + fp, ip.len() + fj);
        lemma_digits_concat(ip, fp);
    }
}

/// If the fraction already has more digits than the representable range of
/// denominators, the whole string denotes nothing representable.
proof fn lemma_den_overflow_none(s: Seq<char>, body: Seq<char>, neg: bool, k: int, fj: nat)
    requires
        body == (if neg {
            s.skip(1)
        } else {
            s
        }),
        neg ==> s.len() >= 1 && s[0] == '-',
        !neg ==> (s.len() >= 1 ==> s[0] != '-'),
        first_dot(body) == k,
        0 <= k < body.len(),
        all_digits(body.take(k)),
        body.take(k).len() >= 1,
        fj <= body.skip(k + 1).len(),
        pow10(fj) > i64::MAX as int,
    ensures
        parse_val(s) matches Some(v) ==> v.d > i64::MAX as int,
{
    if parse_val(s) is Some {
        let fp = body.skip(k + 1);
        lemma_pow10_mono(fj, fp.len());
    }
}

/// The value denoted by an unsigned integer string with an optional leading
/// plus sign; any magnitude, the caller checks the range.
pub open spec fn u32_val(s: Seq<char>) -> Option<int> {
    let body = if s.len() >= 1 && s[0] == '+' {
        s.skip(1)
    } else {
        s
    };
    if body.len() >= 1 && all_digits(body) {
        Some(digits_val(body))
    } else {
        None
    }
}

/// Parse an unsigned 32-bit integer with an optional leading plus sign;
/// `None` exactly when the string is malformed or the value does not fit.
pub fn parse_u32(s: &str) -> (r: Option<u32>)
    ensures
        u32_val(s@) is None ==> r is None,
        u32_val(s@) matches Some(v) ==> {
            &&& (r is Some <==> v <= u32::MAX as int)
            &&& (r matches Some(q) ==> q == v)
        },
{
    let len: usize = s.unicode_len();
    let plus: bool = if len >= 1 {
        s.get_char(0) == '+'
    } else {
        false
    };
    let start: usize = if plus {
        1
    } else {
        0
    };
    let ghost body: Seq<char> = if plus {
        s@.skip(1)
    } else {
        s@
    };
    let limit: u32 = 4_294_967_295;
    let mut i: usize = start;
    let mut acc: u32 = 0;
    while i < len
        invariant_except_break
            len == s@.len(),
            start <= i <= len,
            start == (if plus {
                1int
            } else {
                0int
            }),
            plus ==> len >= 1 && s@[0] == '+',
            !plus ==> (len >= 1 ==> s@[0] != '+'),
            body == (if plus {
                s@.skip(1)
            } else {
                s@
            }),
            limit == u32::MAX,
            acc <= limit,
            all_digits(body.take(i - start)),
            acc == digits_val(body.take(i - start)),
        ensures
            len == s@.len(),
            start <= i <= len,
            limit == u32::MAX,
            plus ==> len >= 1 && s@[0] == '+',
            !plus ==> (len >= 1 ==> s@[0] != '+'),
            acc <= limit,
            all_digits(body.take(i - start)),
            acc == digits_val(body.take(i - start)),
            i < len ==> !is_digit(s@[i as int]),
        decreases len - i,
    {
        match digit_at(s, i) {
            Some(d64) => {
                proof {
                    assert(d64 <= 9);
                    assert(body.take(i - start + 1).drop_last() =~= body.take(i - start));
                    assert(body.take(i - start + 1).last() == s@[i as int]);
                    assert(all_digits(body.take(i - start + 1))) by {
                        assert(forall|t: int|
                            0 <= t < i - start ==> #[trigger] body.take(i - start + 1)[t]
                                == body.take(i - start)[t]);
                    }
                }
                let d: u32 = d64 as u32;
                if acc > (limit - d) / 10 {
                    proof {
                        vstd::arithmetic::div_mod::lemma_fundamental_div_mod(
                            limit as int - d,
                            10,
                        );
                        assert(acc * 10 + d > limit);
                        if u32_val(s@) is Some {
                            lemma_digits_prefix_le(body, i - start + 1);
                        }
                    }
                    return None;
                }
                acc = acc * 10 + d;
                i += 1;
            },
            None => {
                break ;
            },
        }
    }
    if i == start {
        proof {
            if start < len {
                if plus {
                    assert(body[0] == s@.skip(1)[0]);
                }
                assert(body[0] == s@[start as int]);
            }
        }
        return None;
    }
    if i < len {
        proof {
            if plus {
                assert(body[i - start] == s@.skip(1)[i - 1]);
            }
            assert(body[i - start] == s@[i as int]);
        }
        return None;
    }
    proof {
        assert(body.take(i - start) =~= body);
        assert(all_digits(body));
    }
    Some(acc)
}

/// Validate a command-line RSI threshold: the string must read as an
/// unsigned integer no greater than 100.
pub fn validator(x: String) -> (r: Result<(), String>)
    ensures
        r is Ok <==> (u32_val(x@) matches Some(v) && v <= 100),
        r matches Err(m) ==> m@ == "value has to be between 0-100"@,
{
    match parse_u32(x.as_str()) {
        Some(v) => {
            if v <= 100 {
                Ok(())
            } else {
                Err("value has to be between 0-100".to_owned())
            }
        },
        None => Err("value has to be between 0-100".to_owned()),
    }
}

} // verus!
