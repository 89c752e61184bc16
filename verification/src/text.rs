//! Verified text utilities: string equality, decimal rendering of integers,
//! joining with a separator, and parsing of integer literals with a
//! fall-back of zero on malformed input.

use vstd::prelude::*;
use vstd::string::StrSliceExecFns;
use vstd::string::StringExecFns;

verus! {

/// Compares two string slices character by character.
pub fn str_eq_str(a: &str, b: &str) -> (r: bool)
    ensures
        r == (a@ == b@),
{
    let alen = a.unicode_len();
    let blen = b.unicode_len();
    if alen != blen {
        return false;
    }
    let mut i: usize = 0;
    while i < alen
        invariant
            i <= alen,
            alen == a@.len(),
            blen == b@.len(),
            alen == blen,
            forall|j: int| 0 <= j < i ==> a@[j] == b@[j],
        decreases alen - i,
    {
        if a.get_char(i) != b.get_char(i) {
            return false;
        }
        i = i + 1;
    }
    proof {
        assert(a@ =~= b@);
    }
    true
}

/// The character for one decimal digit.
pub open spec fn digit_char(d: int) -> char {
    if d == 0 {
        '0'
    } else if d == 1 {
        '1'
    } else if d == 2 {
        '2'
    } else if d == 3 {
        '3'
    } else if d == 4 {
        '4'
    } else if d == 5 {
        '5'
    } else if d == 6 {
        '6'
    } else if d == 7 {
        '7'
    } else if d == 8 {
        '8'
    } else {
        '9'
    }
}

/// The decimal digit string of a non-negative integer, most significant
/// digit first, with no leading zeros (a single `'0'` for zero).
pub open spec fn dec_digits(n: nat) -> Seq<char>
    decreases n,
{
    if n < 10 {
        seq![digit_char(n as int)]
    } else {
        dec_digits(n / 10).push(digit_char((n % 10) as int))
    }
}

/// The exact decimal rendering of an integer: a minus sign followed by the
/// digits for a negative value, the digits alone otherwise.
pub open spec fn int_to_dec(v: int) -> Seq<char> {
    if v < 0 {
        seq!['-'] + dec_digits((-v) as nat)
    } else {
        dec_digits(v as nat)
    }
}

/// Digits collected least significant first, read back most significant
/// first.
spec fn digits_rev(ds: Seq<u8>) -> Seq<char>
    decreases ds.len(),
{
    if ds.len() == 0 {
        Seq::empty()
    } else {
        seq![digit_char(ds.last() as int)] + digits_rev(ds.drop_last())
    }
}

/// Appends the character of one decimal digit.
fn append_digit(s: &mut String, d: u8)
    requires
        d < 10,
    ensures
        final(s)@ == old(s)@ + seq![digit_char(d as int)],
{
    proof {
        reveal_strlit("0");
        reveal_strlit("1");
        reveal_strlit("2");
        reveal_strlit("3");
        reveal_strlit("4");
        reveal_strlit("5");
        reveal_strlit("6");
        reveal_strlit("7");
        reveal_strlit("8");
        reveal_strlit("9");
    }
    if d == 0 {
        s.append("0");
    } else if d == 1 {
        s.append("1");
    } else if d == 2 {
        s.append("2");
    } else if d == 3 {
        s.append("3");
    } else if d == 4 {
        s.append("4");
    } else if d == 5 {
        s.append("5");
    } else if d == 6 {
        s.append("6");
    } else if d == 7 {
        s.append("7");
    } else if d == 8 {
        s.append("8");
    } else {
        s.append("9");
    }
    proof {
        assert(s@ =~= old(s)@ + seq![digit_char(d as int)]);
    }
}

/// Appends the decimal digits of `m`.
fn append_dec_u64(s: &mut String, m: u64)
    ensures
        final(s)@ == old(s)@ + dec_digits(m as nat),
{
    let mut ds: Vec<u8> = Vec::new();
    let mut x: u64 = m;
    loop
        invariant_except_break
            (ds@.len() == 0 && x == m) || (x > 0 && dec_digits(m as nat) == dec_digits(x as nat)
                + digits_rev(ds@)),
        invariant
            forall|j: int| 0 <= j < ds@.len() ==> ds@[j] < 10,
        ensures
            forall|j: int| 0 <= j < ds@.len() ==> ds@[j] < 10,
            dec_digits(m as nat) == digits_rev(ds@),
        decreases x,
    {
        let ghost old_ds = ds@;
        let ghost old_x = x;
        let d: u8 = (x % 10) as u8;
        ds.push(d);
        x = x / 10;
        proof {
            assert(ds@.last() == d);
            assert(ds@.drop_last() =~= old_ds);
            if old_ds.len() == 0 && old_x == m {
                if old_x < 10 {
                    assert(dec_digits(m as nat) =~= digits_rev(ds@));
                } else {
                    assert(dec_digits(m as nat) == dec_digits((m / 10) as nat).push(digit_char(
                        (m % 10) as int,
                    )));
                    assert(dec_digits((m / 10) as nat).push(digit_char((m % 10) as int))
                        =~= dec_digits(x as nat) + digits_rev(ds@));
                }
            } else {
                if old_x < 10 {
                    assert(dec_digits(old_x as nat) =~= seq![digit_char(old_x as int)]);
                    assert(dec_digits(m as nat) =~= digits_rev(ds@));
                } else {
                    assert(dec_digits(old_x as nat) == dec_digits((old_x / 10) as nat).push(
                        digit_char((old_x % 10) as int),
                    ));
                    assert(dec_digits(x as nat) + digits_rev(ds@) =~= (dec_digits(x as nat).push(
                        digit_char(d as int),
                    )) + digits_rev(old_ds));
                    assert(dec_digits(m as nat) == dec_digits(x as nat) + digits_rev(ds@));
                }
            }
        }
        if x == 0 {
            break ;
        }
    }
    let ghost done = dec_digits(m as nat);
    let mut k: usize = ds.len();
    proof {
        assert(ds@.take(k as int) =~= ds@);
    }
    while k > 0
        invariant
            k <= ds@.len(),
            forall|j: int| 0 <= j < ds@.len() ==> ds@[j] < 10,
            done == dec_digits(m as nat),
            s@ + digits_rev(ds@.take(k as int)) == old(s)@ + done,
        decreases k,
    {
        let ghost pre = s@;
        let d = ds[k - 1];
        append_digit(s, d);
        proof {
            let t = ds@.take(k as int);
            assert(t.last() == d);
            assert(t.drop_last() =~= ds@.take(k as int - 1));
            assert(digits_rev(t) == seq![digit_char(d as int)] + digits_rev(
                ds@.take(k as int - 1),
            ));
            assert(s@ + digits_rev(ds@.take(k as int - 1)) =~= pre + digits_rev(t));
        }
        k = k - 1;
    }
    proof {
        assert(digits_rev(ds@.take(0)) =~= Seq::<char>::empty());
        assert(s@ =~= s@ + digits_rev(ds@.take(0)));
        assert(s@ =~= old(s)@ + dec_digits(m as nat));
    }
}

/// Renders an integer as exact decimal text with its sign.
pub fn i64_to_string(v: i64) -> (s: String)
    ensures
        s@ == int_to_dec(v as int),
{
    let mut s = String::new();
    if v >= 0 {
        append_dec_u64(&mut s, v as u64);
        proof {
            assert(s@ =~= int_to_dec(v as int));
        }
    } else {
        proof {
            reveal_strlit("-");
        }
        s.append("-");
        let m: u64 = ((-(v + 1)) as u64) + 1;
        proof {
            assert(m as int == -(v as int));
        }
        append_dec_u64(&mut s, m);
        proof {
            assert(s@ =~= int_to_dec(v as int));
        }
    }
    s
}

/// The items joined with the separator between consecutive items.
pub open spec fn join_with(items: Seq<Seq<char>>, sep: Seq<char>) -> Seq<char> {
    if items.len() == 0 {
        Seq::empty()
    } else {
        items[0] + join_tail(items, 1, sep)
    }
}

/// The separator-prefixed items of `items` from position `i` on.
pub open spec fn join_tail(items: Seq<Seq<char>>, i: int, sep: Seq<char>) -> Seq<char>
    decreases items.len() - i,
{
    if i < 0 || i >= items.len() {
        Seq::empty()
    } else {
        sep + items[i] + join_tail(items, i + 1, sep)
    }
}

/// Joins the strings with the separator between consecutive entries.
pub fn join_strings(items: &Vec<String>, sep: &str) -> (r: String)
    ensures
        r@ == join_with(items.deep_view(), sep@),
{
    if items.len() == 0 {
        return String::new();
    }
    let mut r: String = items[0].clone();
    let mut i: usize = 1;
    while i < items.len()
        invariant
            1 <= i <= items.deep_view().len(),
            items.deep_view().len() == items@.len(),
            forall|j: int|
                0 <= j < items@.len() ==> items.deep_view()[j] == #[trigger] items@[j]@,
            join_with(items.deep_view(), sep@) == r@ + join_tail(
                items.deep_view(),
                i as int,
                sep@,
            ),
        decreases items@.len() - i,
    {
        let ghost pre = r@;
        r.append(sep);
        r.append(items[i].as_str());
        proof {
            assert(join_tail(items.deep_view(), i as int, sep@) == sep@ + items.deep_view()[
                i as int
            ] + join_tail(items.deep_view(), i as int + 1, sep@));
            assert(pre + join_tail(items.deep_view(), i as int, sep@) =~= r@ + join_tail(
                items.deep_view(),
                i as int + 1,
                sep@,
            ));
        }
        i = i + 1;
    }
    proof {
        assert(join_tail(items.deep_view(), i as int, sep@) =~= Seq::<char>::empty());
        assert(r@ + join_tail(items.deep_view(), i as int, sep@) =~= r@);
    }
    r
}

/// Whether the character is a decimal digit.
pub open spec fn is_dec_digit(c: char) -> bool {
    '0' <= c && c <= '9'
}

/// The numeric value of one decimal digit character.
pub open spec fn digit_val(c: char) -> int {
    c as int - '0' as int
}

/// The value of a string of decimal digits, most significant first.
pub open spec fn digits_val(s: Seq<char>) -> int
    decreases s.len(),
{
    if s.len() == 0 {
        0
    } else {
        digits_val(s.drop_last()) * 10 + digit_val(s.last())
    }
}

/// Whether every character is a decimal digit.
pub open spec fn all_dec_digits(s: Seq<char>) -> bool {
    forall|i: int| 0 <= i < s.len() ==> is_dec_digit(#[trigger] s[i])
}

/// The value of an optionally signed decimal literal, or zero when the text
/// is not such a literal or its value does not fit the result type.
pub open spec fn parse_i64_or_zero(s: Seq<char>) -> int {
    let neg = s.len() > 0 && s[0] == '-';
    let ds = if s.len() > 0 && (s[0] == '-' || s[0] == '+') {
        s.drop_first()
    } else {
        s
    };
    if ds.len() > 0 && all_dec_digits(ds) {
        if neg {
            if -digits_val(ds) >= i64::MIN {
                -digits_val(ds)
            } else {
                0
            }
        } else {
            if digits_val(ds) <= i64::MAX {
                digits_val(ds)
            } else {
                0
            }
        }
    } else {
        0
    }
}

proof fn lemma_digits_val_nonneg(s: Seq<char>)
    requires
        all_dec_digits(s),
    ensures
        digits_val(s) >= 0,
    decreases s.len(),
{
    if s.len() > 0 {
        assert(all_dec_digits(s.drop_last())) by {
            assert(forall|i: int|
                0 <= i < s.drop_last().len() ==> #[trigger] s.drop_last()[i] == s[i]);
        }
        lemma_digits_val_nonneg(s.drop_last());
    }
}

proof fn lemma_digits_val_prefix_le(s: Seq<char>, j: int)
    requires
        all_dec_digits(s),
        0 <= j <= s.len(),
    ensures
        digits_val(s.take(j)) <= digits_val(s),
    decreases s.len() - j,
{
    if j < s.len() {
        lemma_digits_val_prefix_le(s, j + 1);
        let t = s.take(j + 1);
        assert(t.drop_last() =~= s.take(j));
        assert(all_dec_digits(s.take(j))) by {
            assert(forall|i: int| 0 <= i < j ==> #[trigger] s.take(j)[i] == s[i]);
        }
        lemma_digits_val_nonneg(s.take(j));
        assert(digits_val(t) == digits_val(s.take(j)) * 10 + digit_val(t.last()));
        assert(digit_val(t.last()) >= 0);
        assert(digits_val(s.take(j)) * 10 >= digits_val(s.take(j)));
    } else {
        assert(s.take(j) =~= s);
    }
}

/// Parses an optionally signed decimal literal, yielding zero on any
/// malformed or out-of-range text.
#[verifier::loop_isolation(false)]
pub fn parse_i64_str(s: &str) -> (v: i64)
    ensures
        v as int == parse_i64_or_zero(s@),
{
    let len = s.unicode_len();
    if len == 0 {
        return 0;
    }
    let first = s.get_char(0);
    let neg = first == '-';
    let start: usize = if first == '-' || first == '+' {
        1
    } else {
        0
    };
    let ghost ds = if s@[0] == '-' || s@[0] == '+' {
        s@.drop_first()
    } else {
        s@
    };
    proof {
        assert(ds.len() == s@.len() - start);
        assert(forall|i: int| 0 <= i < ds.len() ==> ds[i] == s@[i + start]);
    }
    if start == len {
        // A bare sign has no digits.
        return 0;
    }
    let mut mag: u64 = 0;
    let mut i: usize = start;
    while i < len
        invariant
            start <= i <= len,
            len == s@.len(),
            start < len,
            start == 0 || start == 1,
            ds.len() == s@.len() - start,
            forall|k: int| 0 <= k < ds.len() ==> ds[k] == s@[k + start],
            all_dec_digits(ds.take(i - start)),
            mag as int == digits_val(ds.take(i - start)),
        decreases len - i,
    {
        let c = s.get_char(i);
        let cu = c as u32;
        if cu < 48 || cu > 57 {
            proof {
                assert(ds[i - start] == c);
                assert(!is_dec_digit(ds[i - start]));
                assert(!all_dec_digits(ds));
            }
            return 0;
        }
        proof {
            assert(is_dec_digit(c));
        }
        let d: u64 = (cu - 48) as u64;
        let ghost pre = ds.take(i - start);
        proof {
            assert(ds.take(i + 1 - start).drop_last() =~= pre);
            assert(ds.take(i + 1 - start).last() == c);
            assert(digits_val(ds.take(i + 1 - start)) == digits_val(pre) * 10 + digit_val(c));
            assert(all_dec_digits(ds.take(i + 1 - start))) by {
                assert(forall|k: int|
                    0 <= k < i + 1 - start ==> #[trigger] ds.take(i + 1 - start)[k] == ds[k]);
            }
            assert(digit_val(c) == d);
        }
        // The digits read so far exceeding any value the result type can
        // hold means the remaining digits cannot bring the literal back
        // into range.
        match mag.checked_mul(10) {
            Some(m10) => {
                match m10.checked_add(d) {
                    Some(m) => {
                        mag = m;
                    },
                    None => {
                        proof {
                            assert(digits_val(ds.take(i + 1 - start)) > u64::MAX);
                            if all_dec_digits(ds) {
                                lemma_digits_val_prefix_le(ds, i + 1 - start);
                                assert(digits_val(ds) > u64::MAX);
                                assert(digits_val(ds) > i64::MAX);
                                assert(-digits_val(ds) < i64::MIN);
                            }
                        }
                        return 0;
                    },
                }
            },
            None => {
                proof {
                    assert(mag * 10 > u64::MAX);
                    assert(digits_val(ds.take(i + 1 - start)) > u64::MAX);
                    if all_dec_digits(ds) {
                        lemma_digits_val_prefix_le(ds, i + 1 - start);
                        assert(digits_val(ds) > u64::MAX);
                        assert(digits_val(ds) > i64::MAX);
                        assert(-digits_val(ds) < i64::MIN);
                    }
                }
                return 0;
            },
        }
        i = i + 1;
    }
    proof {
        assert(ds.take(i - start) =~= ds);
    }
    if neg {
        if mag > 9223372036854775808u64 {
            return 0;
        }
        if mag == 9223372036854775808u64 {
            return i64::MIN;
        }
        return -(mag as i64);
    }
    if mag > 9223372036854775807u64 {
        return 0;
    }
    mag as i64
}

} // verus!
