//! Parsing of the wire-level string forms: the closed enums arrive as
//! upper-case words, prices and quantities as decimal numerals that must be
//! parsed exactly into fixed-point units of one millionth.

use vstd::prelude::*;

verus! {

use crate::order::{OrderSide, OrderType, Outcome};
use vstd::string::StrSliceExecFns;

pub open spec fn is_digit(c: char) -> bool {
    '0' <= c && c <= '9'
}

pub open spec fn digit_val(c: char) -> int {
    c as int - '0' as int
}

pub open spec fn all_digits(s: Seq<char>) -> bool {
    forall|i: int| 0 <= i < s.len() ==> is_digit(#[trigger] s[i])
}

/// The number a sequence of decimal digits denotes.
pub open spec fn digits_val(s: Seq<char>) -> int
    decreases s.len(),
{
    if s.len() == 0 {
        0
    } else {
        digits_val(s.drop_last()) * 10 + digit_val(s.last())
    }
}

/// Position of the first dot; the length when there is none.
pub open spec fn dot_pos(s: Seq<char>) -> int
    decreases s.len(),
{
    if s.len() == 0 {
        0
    } else if s[0] == '.' {
        0
    } else {
        1 + dot_pos(s.drop_first())
    }
}

/// How many millionths one unit in the last place of an `n`-digit fraction
/// is worth.
pub open spec fn frac_scale(n: int) -> int {
    if n == 1 {
        100_000
    } else if n == 2 {
        10_000
    } else if n == 3 {
        1_000
    } else if n == 4 {
        100
    } else if n == 5 {
        10
    } else {
        1
    }
}

/// The exact value, in millionths, that a decimal numeral denotes: digits
/// with at most one dot and one to six fraction digits. Anything else has
/// no value.
pub open spec fn spec_parse_decimal(s: Seq<char>) -> Option<int> {
    let d = dot_pos(s);
    if d == s.len() {
        if s.len() > 0 && all_digits(s) {
            Some(digits_val(s) * 1_000_000)
        } else {
            None
        }
    } else {
        let ip = s.take(d);
        let fp = s.skip(d + 1);
        if all_digits(ip) && all_digits(fp) && 1 <= fp.len() <= 6 {
            Some(digits_val(ip) * 1_000_000 + digits_val(fp) * frac_scale(fp.len() as int))
        } else {
            None
        }
    }
}

proof fn lemma_dot_pos_at(s: Seq<char>, i: int)
    requires
        0 <= i <= s.len(),
        forall|k: int| 0 <= k < i ==> s[k] != '.',
        i < s.len() ==> s[i] == '.',
    ensures
        dot_pos(s) == i,
    decreases i,
{
    if i == 0 {
    } else {
        let t = s.drop_first();
        assert forall|k: int| 0 <= k < i - 1 implies t[k] != '.' by {
            assert(t[k] == s[k + 1]);
        }
        assert(i - 1 < t.len() ==> t[i - 1] == '.');
        lemma_dot_pos_at(t, i - 1);
    }
}

/// A digit string denotes a non-negative number, and any prefix denotes no
/// more than the whole.
proof fn lemma_digits_prefix(s: Seq<char>, j: int)
    requires
        all_digits(s),
        0 <= j <= s.len(),
    ensures
        0 <= digits_val(s.take(j)) <= digits_val(s),
    decreases s.len(),
{
    if s.len() == 0 {
        assert(s.take(j) =~= s);
    } else if j == s.len() {
        assert(s.take(j) =~= s);
        lemma_digits_prefix(s.drop_last(), s.len() - 1);
        assert(s.drop_last().take(s.len() - 1) =~= s.drop_last());
    } else {
        let t = s.drop_last();
        assert(all_digits(t)) by {
            assert forall|k: int| 0 <= k < t.len() implies is_digit(#[trigger] t[k]) by {
                assert(t[k] == s[k]);
            }
        }
        assert(s.take(j) =~= t.take(j));
        lemma_digits_prefix(t, j);
        assert(digits_val(s) == digits_val(t) * 10 + digit_val(s.last()));
        assert(is_digit(s.last()));
    }
}

/// Read `"BUY"` or `"SELL"`; anything else is refused.
pub fn parse_side(s: &String) -> (r: Option<OrderSide>)
    ensures
        r == (if s@ == "BUY"@ {
            Some(OrderSide::BUY)
        } else if s@ == "SELL"@ {
            Some(OrderSide::SELL)
        } else {
            None::<OrderSide>
        }),
{
    if s.eq(&"BUY".to_owned()) {
        Some(OrderSide::BUY)
    } else if s.eq(&"SELL".to_owned()) {
        Some(OrderSide::SELL)
    } else {
        None
    }
}

/// Read `"YES"` or `"NO"`; anything else is refused.
pub fn parse_outcome(s: &String) -> (r: Option<Outcome>)
    ensures
        r == (if s@ == "YES"@ {
            Some(Outcome::YES)
        } else if s@ == "NO"@ {
            Some(Outcome::NO)
        } else {
            None::<Outcome>
        }),
{
    if s.eq(&"YES".to_owned()) {
        Some(Outcome::YES)
    } else if s.eq(&"NO".to_owned()) {
        Some(Outcome::NO)
    } else {
        None
    }
}

/// Read `"LIMIT"`, `"MARKET"` or `"POSTONLY"`; anything else is refused.
pub fn parse_order_type(s: &String) -> (r: Option<OrderType>)
    ensures
        r == (if s@ == "LIMIT"@ {
            Some(OrderType::LIMIT)
        } else if s@ == "MARKET"@ {
            Some(OrderType::MARKET)
        } else if s@ == "POSTONLY"@ {
            Some(OrderType::POSTONLY)
        } else {
            None::<OrderType>
        }),
{
    if s.eq(&"LIMIT".to_owned()) {
        Some(OrderType::LIMIT)
    } else if s.eq(&"MARKET".to_owned()) {
        Some(OrderType::MARKET)
    } else if s.eq(&"POSTONLY".to_owned()) {
        Some(OrderType::POSTONLY)
    } else {
        None
    }
}

/// Scan the digits of `s` in `[from, to)`, returning their value when they
/// are all digits and the value fits, the reason otherwise.
fn scan_digits(s: &str, from: usize, to: usize) -> (r: Result<u64, bool>)
    requires
        from <= to <= s@.len(),
    ensures
        (match r {
            Ok(v) => all_digits(s@.subrange(from as int, to as int)) && v == digits_val(
                s@.subrange(from as int, to as int),
            ),
            Err(overflow) => {
                if overflow {
                    all_digits(s@.subrange(from as int, to as int)) ==> digits_val(
                        s@.subrange(from as int, to as int),
                    ) > u64::MAX
                } else {
                    !all_digits(s@.subrange(from as int, to as int))
                }
            },
        }),
{
    let ghost q = s@.subrange(from as int, to as int);
    let mut acc: u128 = 0;
    let mut i: usize = from;
    while i < to
        invariant
            from <= i <= to <= s@.len(),
            q == s@.subrange(from as int, to as int),
            all_digits(q.take(i - from)),
            acc == digits_val(q.take(i - from)),
            acc <= u64::MAX,
        decreases to - i,
    {
        let c = s.get_char(i);
        let cv = c as u32;
        proof {
            assert(q[i - from] == s@[i as int]);
            assert(q.take(i - from + 1).drop_last() =~= q.take(i - from));
            assert(q.take(i - from + 1).last() == q[i - from]);
        }
        if cv < 48 || cv > 57 {
            proof {
                assert(!is_digit(q[i - from]));
            }
            return Err(false);
        }
        acc = acc * 10 + ((cv - 48) as u128);
        if acc > 0xFFFF_FFFF_FFFF_FFFFu128 {
            proof {
                if all_digits(q) {
                    lemma_digits_prefix(q, i - from + 1);
                    assert(digits_val(q) >= digits_val(q.take(i - from + 1)));
                }
            }
            return Err(true);
        }
        i = i + 1;
    }
    proof {
        assert(q.take(to - from) =~= q);
    }
    Ok(acc as u64)
}

/// Parse a decimal numeral exactly into millionths: digits, at most one
/// dot, one to six fraction digits. A malformed numeral, a finer fraction
/// or a value beyond `u64` is refused.
pub fn parse_decimal(s: &String) -> (r: Option<u64>)
    ensures
        (match spec_parse_decimal(s@) {
            Some(v) => (if v <= u64::MAX {
                r == Some(v as u64)
            } else {
                r is None
            }),
            None => r is None,
        }),
{
    let st: &str = s.as_str();
    let n = st.unicode_len();
    let mut d: usize = n;
    let mut i: usize = 0;
    while i < n
        invariant
            i <= n,
            n == st@.len(),
            st@ == s@,
            d == n || (d < i && st@[d as int] == '.'),
            d == n ==> forall|k: int| 0 <= k < i ==> st@[k] != '.',
            d < n ==> forall|k: int| 0 <= k < d ==> st@[k] != '.',
        decreases n - i,
    {
        if d == n {
            let c = st.get_char(i);
            if c == '.' {
                d = i;
            }
        }
        i = i + 1;
    }
    proof {
        lemma_dot_pos_at(s@, d as int);
    }
    if d == n {
        if n == 0 {
            return None;
        }
        let ip = match scan_digits(st, 0, n) {
            Ok(v) => v,
            Err(_) => {
                proof {
                    assert(s@.subrange(0, n as int) =~= s@);
                    if spec_parse_decimal(s@) is Some {
                        assert(all_digits(s@));
                        assert(digits_val(s@) * 1_000_000 >= digits_val(s@)) by {
                            lemma_digits_prefix(s@, s@.len() as int);
                            assert(s@.take(s@.len() as int) =~= s@);
                        }
                    }
                }
                return None;
            },
        };
        proof {
            assert(s@.subrange(0, n as int) =~= s@);
            lemma_digits_prefix(s@, s@.len() as int);
            assert(s@.take(s@.len() as int) =~= s@);
        }
        if ip > 18_446_744_073_709u64 {
            // ip * 1_000_000 would not fit
            proof {
                assert(digits_val(s@) * 1_000_000 > u64::MAX);
            }
            return None;
        }
        Some(ip * 1_000_000)
    } else {
        let flen = n - d - 1;
        if flen == 0 || flen > 6 {
            return None;
        }
        let ghost ip_seq = s@.take(d as int);
        let ghost fp_seq = s@.skip(d as int + 1);
        let ip = match scan_digits(st, 0, d) {
            Ok(v) => v,
            Err(over) => {
                proof {
                    assert(s@.subrange(0, d as int) =~= ip_seq);
                    if over && spec_parse_decimal(s@) is Some {
                        assert(digits_val(ip_seq) * 1_000_000 + digits_val(fp_seq) * frac_scale(
                            fp_seq.len() as int,
                        ) >= digits_val(ip_seq)) by {
                            lemma_digits_prefix(fp_seq, fp_seq.len() as int);
                            assert(fp_seq.take(fp_seq.len() as int) =~= fp_seq);
                            assert(frac_scale(fp_seq.len() as int) >= 1);
                            assert(digits_val(fp_seq) * frac_scale(fp_seq.len() as int) >= 0) by (
                            nonlinear_arith)
                                requires
                                    digits_val(fp_seq) >= 0,
                                    frac_scale(fp_seq.len() as int) >= 1,
                            ;
                        }
                    }
                }
                return None;
            },
        };
        let fp = match scan_digits(st, d + 1, n) {
            Ok(v) => v,
            Err(_) => {
                proof {
                    assert(s@.subrange(d as int + 1, n as int) =~= fp_seq);
                    if spec_parse_decimal(s@) is Some {
                        assert(all_digits(fp_seq));
                        assert(digits_val(fp_seq) <= u64::MAX) by {
                            lemma_digits_upper(fp_seq, fp_seq.len() as int);
                        }
                    }
                }
                return None;
            },
        };
        proof {
            assert(s@.subrange(0, d as int) =~= ip_seq);
            assert(s@.subrange(d as int + 1, n as int) =~= fp_seq);
        }
        let scale: u64 = if flen == 1 {
            100_000
        } else if flen == 2 {
            10_000
        } else if flen == 3 {
            1_000
        } else if flen == 4 {
            100
        } else if flen == 5 {
            10
        } else {
            1
        };
        proof {
            assert((fp as u128) * (scale as u128) <= 0xFFFF_FFFF_FFFF_FFFFu64 * 100_000u64) by (
            nonlinear_arith)
                requires
                    fp <= 0xFFFF_FFFF_FFFF_FFFFu64,
                    scale <= 100_000u64,
            ;
        }
        let total: u128 = (ip as u128) * 1_000_000 + (fp as u128) * (scale as u128);
        if total > 0xFFFF_FFFF_FFFF_FFFFu128 {
            return None;
        }
        Some(total as u64)
    }
}

/// Powers of ten up to the price scale, as a closed table.
pub open spec fn ten_to(n: int) -> int {
    if n <= 0 {
        1
    } else if n == 1 {
        10
    } else if n == 2 {
        100
    } else if n == 3 {
        1_000
    } else if n == 4 {
        10_000
    } else if n == 5 {
        100_000
    } else {
        1_000_000
    }
}

/// The one-character numeral of a digit.
fn digit_str(d: u64) -> (r: &'static str)
    requires
        d < 10,
    ensures
        r@.len() == 1,
        is_digit(r@[0]),
        digit_val(r@[0]) == d as int,
{
    proof {
        reveal_strlit("0");
        reveal_strlit("1");
        reveal_strlit("2");
        reveal_strlit("3");
        reveal_strlit("4");
        reveal_strlit("5");
        reveal_strlit("6");
        reveal_strlit("7");
        reveal_strlit("8");
        reveal_strlit("9");
    }
    if d == 0 {
        "0"
    } else if d == 1 {
        "1"
    } else if d == 2 {
        "2"
    } else if d == 3 {
        "3"
    } else if d == 4 {
        "4"
    } else if d == 5 {
        "5"
    } else if d == 6 {
        "6"
    } else if d == 7 {
        "7"
    } else if d == 8 {
        "8"
    } else {
        "9"
    }
}

/// Append the decimal digits of `v`, most significant first, no leading
/// zeros (a single zero for zero).
fn append_digits(v: u64, out: &mut String)
    ensures
        final(out)@.len() > old(out)@.len(),
        final(out)@.subrange(0, old(out)@.len() as int) == old(out)@,
        all_digits(final(out)@.skip(old(out)@.len() as int)),
        digits_val(final(out)@.skip(old(out)@.len() as int)) == v,
    decreases v,
{
    let ghost n0 = out@.len() as int;
    if v >= 10 {
        append_digits(v / 10, out);
    }
    let ghost mid = out@;
    let d = v % 10;
    out.append(digit_str(d));
    proof {
        assert(out@.subrange(0, n0) =~= (if v >= 10 {
            mid.subrange(0, n0)
        } else {
            mid
        }));
        assert(out@.skip(n0) =~= mid.skip(n0).push(out@[out@.len() - 1])) by {
            if v < 10 {
                assert(mid.skip(n0) =~= Seq::<char>::empty());
            }
        }
        let suf = out@.skip(n0);
        assert(suf.drop_last() =~= mid.skip(n0));
        assert(is_digit(suf.last()) && digit_val(suf.last()) == d as int);
        assert forall|k: int| 0 <= k < suf.len() implies is_digit(#[trigger] suf[k]) by {
            if k < suf.len() - 1 {
                assert(suf[k] == mid.skip(n0)[k]);
            }
        }
        if v >= 10 {
            assert(digits_val(suf) == (v / 10) * 10 + (v % 10));
            vstd::arithmetic::div_mod::lemma_fundamental_div_mod(v as int, 10);
            assert((v / 10) * 10 + (v % 10) == v);
        } else {
            assert(digits_val(mid.skip(n0)) == 0);
        }
    }
}

/// Append exactly `n` decimal digits of `v`, zero-padded on the left.
fn append_digits_padded(v: u64, n: usize, out: &mut String)
    requires
        n <= 6,
        v < ten_to(n as int),
    ensures
        final(out)@.len() == old(out)@.len() + n,
        final(out)@.subrange(0, old(out)@.len() as int) == old(out)@,
        all_digits(final(out)@.skip(old(out)@.len() as int)),
        digits_val(final(out)@.skip(old(out)@.len() as int)) == v,
    decreases n,
{
    let ghost n0 = out@.len() as int;
    if n == 0 {
        proof {
            assert(out@.subrange(0, n0) =~= out@);
            assert(out@.skip(n0) =~= Seq::<char>::empty());
        }
        return ;
    }
    proof {
        assert(v / 10 < ten_to(n - 1));
    }
    append_digits_padded(v / 10, n - 1, out);
    let ghost mid = out@;
    let d = v % 10;
    out.append(digit_str(d));
    proof {
        assert(out@.subrange(0, n0) =~= mid.subrange(0, n0));
        assert(out@.skip(n0) =~= mid.skip(n0).push(out@[out@.len() - 1]));
        let suf = out@.skip(n0);
        assert(suf.drop_last() =~= mid.skip(n0));
        assert(is_digit(suf.last()) && digit_val(suf.last()) == d as int);
        assert forall|k: int| 0 <= k < suf.len() implies is_digit(#[trigger] suf[k]) by {
            if k < suf.len() - 1 {
                assert(suf[k] == mid.skip(n0)[k]);
            }
        }
        assert(digits_val(suf) == (v / 10) * 10 + (v % 10));
        vstd::arithmetic::div_mod::lemma_fundamental_div_mod(v as int, 10);
        assert((v / 10) * 10 + (v % 10) == v);
    }
}

/// Render a fixed-point value in millionths as its canonical decimal
/// numeral: digits, then a dot and the fraction with trailing zeros
/// trimmed, only when the fraction is non-zero. The rendering is exact:
/// parsing it back yields the value.
pub fn format_units(v: u64) -> (r: String)
    ensures
        spec_parse_decimal(r@) == Some(v as int),
{
    proof {
        reveal_strlit(".");
    }
    let whole = v / 1_000_000;
    let frac = v % 1_000_000;
    let mut out = String::new();
    append_digits(whole, &mut out);
    let ghost ws = out@;
    proof {
        assert(ws.skip(0) =~= ws);
        assert(all_digits(ws));
        assert(digits_val(ws) == whole);
    }
    if frac == 0 {
        proof {
            assert forall|k: int| 0 <= k < ws.len() implies ws[k] != '.' by {
                assert(is_digit(ws[k]));
            }
            lemma_dot_pos_at(ws, ws.len() as int);
            assert(digits_val(ws) * 1_000_000 == v) by {
                vstd::arithmetic::div_mod::lemma_fundamental_div_mod(v as int, 1_000_000);
                assert(whole * 1_000_000 + frac == v);
            }
        }
        return out;
    }
    let mut f = frac;
    let mut scale: u64 = 1;
    let mut k: usize = 6;
    while f % 10 == 0
        invariant
            1 <= k <= 6,
            f * scale == frac,
            0 < frac < 1_000_000,
            f < ten_to(k as int),
            scale == frac_scale(k as int),
            f > 0,
        decreases f,
    {
        proof {
            assert(f >= 10) by {
                if f < 10 {
                    assert(f % 10 == f);
                }
            }
            assert(k >= 2) by {
                if k == 1 {
                    assert(f < 10);
                }
            }
            assert((f / 10) * (scale * 10) == frac) by {
                vstd::arithmetic::div_mod::lemma_fundamental_div_mod(f as int, 10);
                assert(f == (f / 10) * 10);
                assert(((f / 10) * 10) * scale == (f / 10) * (scale * 10)) by (nonlinear_arith);
            }
        }
        f = f / 10;
        scale = scale * 10;
        k = k - 1;
    }
    out.append(".");
    let ghost wd = out@;
    proof {
        assert(wd =~= ws.push('.'));
    }
    append_digits_padded(f, k, &mut out);
    proof {
        let s = out@;
        let d = ws.len() as int;
        assert(s.subrange(0, d + 1) =~= wd.subrange(0, d + 1));
        assert forall|kk: int| 0 <= kk < d implies s[kk] != '.' by {
            assert(s[kk] == wd[kk]);
            assert(wd[kk] == ws[kk]);
            assert(is_digit(ws[kk]));
        }
        assert(s[d] == wd[d]);
        assert(s[d] == '.');
        lemma_dot_pos_at(s, d);
        assert(s.take(d) =~= ws);
        assert(s.skip(d + 1) =~= out@.skip(wd.len() as int));
        let fp = s.skip(d + 1);
        assert(fp.len() == k && all_digits(fp) && digits_val(fp) == f);
        assert(digits_val(ws) * 1_000_000 + digits_val(fp) * frac_scale(fp.len() as int) == v)
            by {
            vstd::arithmetic::div_mod::lemma_fundamental_div_mod(v as int, 1_000_000);
            assert(whole * 1_000_000 + frac == v);
            assert(f * scale == frac);
        }
    }
    out
}

/// A string of at most six digits denotes a value below the matching power
/// of ten, so a fraction always fits its scale.
proof fn lemma_digits_upper(s: Seq<char>, n: int)
    requires
        all_digits(s),
        s.len() == n,
        0 <= n <= 6,
    ensures
        digits_val(s) < ten_to(n),
    decreases n,
{
    if n > 0 {
        let t = s.drop_last();
        assert(all_digits(t)) by {
            assert forall|k: int| 0 <= k < t.len() implies is_digit(#[trigger] t[k]) by {
                assert(t[k] == s[k]);
            }
        }
        lemma_digits_upper(t, n - 1);
        assert(s.last() == s[s.len() - 1]);
        assert(is_digit(s[s.len() - 1]));
        assert(digit_val(s.last()) <= 9);
        assert(ten_to(n - 1) * 10 == ten_to(n));
    }
}

} // verus!
