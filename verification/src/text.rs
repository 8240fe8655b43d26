//! Plain-text helpers for the line protocol: decimal numbers, splitting a
//! line into space-separated tokens, and joining tokens back into a line.

use vstd::prelude::*;

verus! {

/// Relies on `String::push`: it appends exactly the given character.
#[verifier::external_body]
pub fn push_char(s: &mut String, c: char)
    ensures
        final(s)@ == old(s)@.push(c),
{
    s.push(c);
}

/// An ASCII decimal digit.
pub open spec fn is_digit(c: char) -> bool {
    48 <= c as u32 <= 57
}

/// Numeric value of an ASCII digit.
pub open spec fn digit_val(c: char) -> int {
    c as u32 - 48
}

/// The digit character for a value below ten.
pub open spec fn digit_char(d: int) -> char {
    if d == 0 {
        '0'
    } else if d == 1 {
        '1'
    } else if d == 2 {
        '2'
    } else if d == 3 {
        '3'
    } else if d == 4 {
        '4'
    } else if d == 5 {
        '5'
    } else if d == 6 {
        '6'
    } else if d == 7 {
        '7'
    } else if d == 8 {
        '8'
    } else {
        '9'
    }
}

/// Value of a digit string, most significant digit first.
pub open spec fn digits_val(s: Seq<char>) -> int
    decreases s.len(),
{
    if s.len() == 0 {
        0
    } else {
        digits_val(s.drop_last()) * 10 + digit_val(s.last())
    }
}

/// Every character is an ASCII digit.
pub open spec fn all_digits(s: Seq<char>) -> bool {
    forall|i: int| 0 <= i < s.len() ==> is_digit(#[trigger] s[i])
}

/// The digits of a nonnegative number, most significant first.
pub open spec fn dec_digits(n: int) -> Seq<char>
    decreases n,
{
    if n < 10 {
        seq![digit_char(n)]
    } else {
        dec_digits(n / 10).push(digit_char(n % 10))
    }
}

/// The decimal rendering of an integer, with a leading minus sign when
/// negative.
pub open spec fn int_dec(n: int) -> Seq<char> {
    if n < 0 {
        seq!['-'] + dec_digits(-n)
    } else {
        dec_digits(n)
    }
}

/// Decimal digits are digits and never spaces.
pub proof fn lemma_dec_digits_shape(n: int)
    requires
        n >= 0,
    ensures
        dec_digits(n).len() >= 1,
        all_digits(dec_digits(n)),
        forall|i: int| 0 <= i < dec_digits(n).len() ==> #[trigger] dec_digits(n)[i] != ' ',
    decreases n,
{
    if n >= 10 {
        lemma_dec_digits_shape(n / 10);
        assert forall|i: int| 0 <= i < dec_digits(n).len() implies is_digit(
            #[trigger] dec_digits(n)[i],
        ) && dec_digits(n)[i] != ' ' by {
            if i < dec_digits(n / 10).len() {
                assert(dec_digits(n)[i] == dec_digits(n / 10)[i]);
            }
        }
    }
}

/// A rendered integer contains no spaces and is nonempty.
pub proof fn lemma_int_dec_shape(n: int)
    ensures
        int_dec(n).len() >= 1,
        forall|i: int| 0 <= i < int_dec(n).len() ==> #[trigger] int_dec(n)[i] != ' ',
{
    if n < 0 {
        lemma_dec_digits_shape(-n);
        assert forall|i: int| 0 <= i < int_dec(n).len() implies #[trigger] int_dec(n)[i]
            != ' ' by {
            if i >= 1 {
                assert(int_dec(n)[i] == dec_digits(-n)[i - 1]);
            }
        }
    } else {
        lemma_dec_digits_shape(n);
    }
}

/// Executable digit character, equal to the specification `digit_char`.
fn digit_char_exec(d: u64) -> (c: char)
    requires
        d < 10,
    ensures
        c == digit_char(d as int),
{
    match d {
        0 => '0',
        1 => '1',
        2 => '2',
        3 => '3',
        4 => '4',
        5 => '5',
        6 => '6',
        7 => '7',
        8 => '8',
        _ => '9',
    }
}

/// Renders a nonnegative number in decimal.
pub fn dec_str(n: u64) -> (r: String)
    ensures
        r@ == dec_digits(n as int),
    decreases n,
{
    if n < 10 {
        let mut s = String::new();
        push_char(&mut s, digit_char_exec(n));
        proof {
            assert(s@ =~= dec_digits(n as int));
        }
        s
    } else {
        let mut s = dec_str(n / 10);
        push_char(&mut s, digit_char_exec(n % 10));
        s
    }
}

/// Renders an `i32` in decimal, as its display form does.
pub fn i32_dec_str(n: i32) -> (r: String)
    ensures
        r@ == int_dec(n as int),
{
    if n < 0 {
        let m = (-(n as i64)) as u64;
        let mut s = String::new();
        push_char(&mut s, '-');
        let d = dec_str(m);
        s.append(d.as_str());
        proof {
            assert(s@ =~= int_dec(n as int));
        }
        s
    } else {
        dec_str(n as u64)
    }
}

/// Renders a `usize` in decimal.
pub fn usize_dec_str(n: usize) -> (r: String)
    ensures
        r@ == dec_digits(n as int),
{
    dec_str(n as u64)
}

/// The unsigned digit part of a possibly signed number string.
pub open spec fn num_body(s: Seq<char>) -> Seq<char> {
    if s.len() >= 1 && (s[0] == '+' || s[0] == '-') {
        s.drop_first()
    } else {
        s
    }
}

/// The string is a well-formed decimal `i32`: an optional sign, at least
/// one digit, nothing else, and a value in range.
pub open spec fn valid_i32_str(s: Seq<char>) -> bool {
    &&& s.len() >= 1
    &&& num_body(s).len() >= 1
    &&& all_digits(num_body(s))
    &&& -0x8000_0000 <= i32_str_val(s) <= 0x7fff_ffff
}

/// The signed value of a well-formed decimal string.
pub open spec fn i32_str_val(s: Seq<char>) -> int {
    if s.len() >= 1 && s[0] == '-' {
        -digits_val(num_body(s))
    } else {
        digits_val(num_body(s))
    }
}

/// Parses a decimal `i32` exactly as the standard integer parser does:
/// an optional sign, then digits only, rejecting empty bodies, stray
/// characters and out-of-range values.
pub fn parse_i32(s: &str) -> (r: Option<i32>)
    ensures
        r is None ==> !valid_i32_str(s@),
        r matches Some(v) ==> valid_i32_str(s@) && v as int == i32_str_val(s@),
{
    let len = s.unicode_len();
    if len == 0 {
        return None;
    }
    let c0 = s.get_char(0);
    let neg = c0 == '-';
    let start: usize = if c0 == '-' || c0 == '+' {
        1
    } else {
        0
    };
    let ghost body = num_body(s@);
    proof {
        assert(body =~= s@.skip(start as int));
    }
    if start >= len {
        // a sign with no digits
        proof {
            assert(num_body(s@).len() == 0);
            assert(!valid_i32_str(s@));
        }
        return None;
    }
    let mut acc: u64 = 0;
    let mut k: usize = start;
    while k < len
        invariant
            start <= k <= len,
            len == s@.len(),
            start <= 1,
            body == num_body(s@),
            body == s@.skip(start as int),
            body.len() == len - start,
            (s@[0] == '-') == neg,
            all_digits(body.take(k - start)),
            digits_val(body.take(k - start)) <= 0xffff_ffff ==> acc == digits_val(
                body.take(k - start),
            ),
            digits_val(body.take(k - start)) > 0xffff_ffff ==> acc == 0x1_0000_0000,
            acc <= 0x1_0000_0000,
            digits_val(body.take(k - start)) >= 0,
        decreases len - k,
    {
        let c = s.get_char(k);
        let cv = c as u32;
        if cv < 48 || cv > 57 {
            proof {
                assert(body[k - start] == s@[k as int]);
                assert(!is_digit(body[k - start]));
                assert(!all_digits(body));
                assert(!valid_i32_str(s@));
            }
            return None;
        }
        let d = (cv - 48) as u64;
        let ghost pre = body.take(k - start);
        let ghost cur = body.take(k + 1 - start);
        proof {
            assert(cur.drop_last() =~= pre);
            assert(cur.last() == body[k - start]);
            assert(body[k - start] == s@[k as int]);
            assert(digits_val(cur) == digits_val(pre) * 10 + d);
            if digits_val(pre) > 0xffff_ffff {
                assert(digits_val(pre) * 10 >= digits_val(pre)) by (nonlinear_arith)
                    requires
                        digits_val(pre) >= 0,
                ;
            }
        }
        if acc <= 0xffff_ffff {
            acc = acc * 10 + d;
            if acc > 0xffff_ffff {
                acc = 0x1_0000_0000;
                proof {
                    assert(digits_val(cur) > 0xffff_ffff);
                }
            }
        } else {
            proof {
                assert(digits_val(pre) > 0xffff_ffff);
                assert(digits_val(cur) > 0xffff_ffff);
            }
        }
        k += 1;
    }
    proof {
        assert(body.take(len - start) =~= body);
    }
    if neg {
        if acc > 0x8000_0000 {
            proof {
                assert(digits_val(body) > 0x8000_0000);
            }
            None
        } else {
            let v: i32 = if acc == 0x8000_0000 {
                i32::MIN
            } else {
                -(acc as i32)
            };
            Some(v)
        }
    } else {
        if acc > 0x7fff_ffff {
            proof {
                assert(digits_val(body) > 0x7fff_ffff);
            }
            None
        } else {
            Some(acc as i32)
        }
    }
}

/// Splits a line at every single space, keeping empty tokens, as the
/// standard single-character split does. The result always holds at least
/// one token.
pub open spec fn split_sp(s: Seq<char>) -> Seq<Seq<char>>
    decreases s.len(),
{
    if s.len() == 0 {
        seq![Seq::<char>::empty()]
    } else if s[0] == ' ' {
        seq![Seq::<char>::empty()] + split_sp(s.drop_first())
    } else {
        let rest = split_sp(s.drop_first());
        seq![seq![s[0]] + rest[0]] + rest.drop_first()
    }
}

/// The split of any line holds at least one token.
pub proof fn lemma_split_nonempty(s: Seq<char>)
    ensures
        split_sp(s).len() >= 1,
    decreases s.len(),
{
    if s.len() > 0 {
        lemma_split_nonempty(s.drop_first());
    }
}

/// Joins tokens with single spaces.
pub open spec fn join_sp(ts: Seq<Seq<char>>) -> Seq<char>
    decreases ts.len(),
{
    if ts.len() == 0 {
        Seq::empty()
    } else if ts.len() == 1 {
        ts[0]
    } else {
        ts[0] + seq![' '] + join_sp(ts.drop_first())
    }
}

/// Joining one more token appends one space and the token.
pub proof fn lemma_join_push(ts: Seq<Seq<char>>, t: Seq<char>)
    requires
        ts.len() >= 1,
    ensures
        join_sp(ts.push(t)) == join_sp(ts) + seq![' '] + t,
    decreases ts.len(),
{
    if ts.len() == 1 {
        assert(ts.push(t).len() == 2);
        assert(ts.push(t).drop_first() =~~= seq![t]);
        assert(join_sp(seq![t]) == seq![t][0]);
        assert(seq![t][0] == t);
        assert(ts.push(t)[0] == ts[0]);
        assert(join_sp(ts.push(t)) =~= ts[0] + seq![' '] + t);
    } else {
        lemma_join_push(ts.drop_first(), t);
        assert(ts.push(t).drop_first() =~~= ts.drop_first().push(t));
        assert(ts.push(t)[0] == ts[0]);
        assert(join_sp(ts.push(t)) =~= join_sp(ts) + seq![' '] + t);
    }
}

/// Splitting a token without spaces gives that token back alone.
proof fn lemma_split_no_space(s: Seq<char>)
    requires
        forall|i: int| 0 <= i < s.len() ==> #[trigger] s[i] != ' ',
    ensures
        split_sp(s) == seq![s],
    decreases s.len(),
{
    if s.len() == 0 {
        assert(s =~= Seq::<char>::empty());
        assert(split_sp(s) =~~= seq![s]);
    } else {
        assert(s[0] != ' ');
        lemma_split_no_space(s.drop_first());
        let rest = split_sp(s.drop_first());
        assert(rest[0] == s.drop_first());
        assert(seq![s[0]] + s.drop_first() =~= s);
        assert(rest.drop_first() =~~= Seq::<Seq<char>>::empty());
        assert(split_sp(s) =~~= seq![s]);
    }
}

/// Splitting a space-free token, a space, and a remainder yields the token
/// and then the split of the remainder.
proof fn lemma_split_first_token(p: Seq<char>, w: Seq<char>)
    requires
        forall|i: int| 0 <= i < p.len() ==> #[trigger] p[i] != ' ',
    ensures
        split_sp(p + seq![' '] + w) == seq![p] + split_sp(w),
    decreases p.len(),
{
    let s = p + seq![' '] + w;
    if p.len() == 0 {
        assert(s[0] == ' ');
        assert(s.drop_first() =~= w);
        assert(p =~= Seq::<char>::empty());
        assert(split_sp(s) =~~= seq![p] + split_sp(w));
    } else {
        assert(s[0] == p[0]);
        assert(s[0] != ' ');
        assert(s.drop_first() =~= p.drop_first() + seq![' '] + w);
        lemma_split_first_token(p.drop_first(), w);
        lemma_split_nonempty(w);
        let rest = split_sp(s.drop_first());
        assert(rest[0] == p.drop_first());
        assert(seq![s[0]] + rest[0] =~= p);
        assert(rest.drop_first() =~~= split_sp(w));
        assert(split_sp(s) =~~= seq![p] + split_sp(w));
    }
}

/// Round trip: joining any tokens that hold no spaces and splitting the
/// line again recovers exactly the original tokens — the verb and the
/// arguments of an encoded line survive decoding.
pub proof fn lemma_join_split_round_trip(ts: Seq<Seq<char>>)
    requires
        ts.len() >= 1,
        forall|k: int, i: int| 0 <= k < ts.len() && 0 <= i < ts[k].len() ==> #[trigger] ts[k][i] != ' ',
    ensures
        split_sp(join_sp(ts)) == ts,
    decreases ts.len(),
{
    if ts.len() == 1 {
        assert forall|i: int| 0 <= i < ts[0].len() implies #[trigger] ts[0][i] != ' ' by {
            assert(ts[0][i] == ts[0][i]);
        }
        lemma_split_no_space(ts[0]);
        assert(split_sp(join_sp(ts)) =~~= ts);
    } else {
        lemma_join_split_round_trip(ts.drop_first());
        lemma_split_first_token(ts[0], join_sp(ts.drop_first()));
        assert(join_sp(ts) == ts[0] + seq![' '] + join_sp(ts.drop_first()));
        assert(split_sp(join_sp(ts)) =~~= ts);
    }
}

/// Splits a line into its space-separated tokens, from position `i` on.
fn tokenize_from(s: &str, i: usize) -> (r: Vec<String>)
    requires
        i <= s@.len(),
    ensures
        r@.len() == split_sp(s@.skip(i as int)).len(),
        forall|k: int|
            0 <= k < r@.len() ==> (#[trigger] r@[k])@ == split_sp(s@.skip(i as int))[k],
    decreases s@.len() - i,
{
    let len = s.unicode_len();
    if i == len {
        let mut r: Vec<String> = Vec::new();
        r.push(String::new());
        proof {
            assert(s@.skip(i as int) =~= Seq::<char>::empty());
        }
        return r;
    }
    let c = s.get_char(i);
    let mut rest = tokenize_from(s, i + 1);
    proof {
        assert(s@.skip(i as int).drop_first() =~= s@.skip(i + 1));
        lemma_split_nonempty(s@.skip(i + 1));
    }
    if c == ' ' {
        rest.insert(0, String::new());
        proof {
            let sp = split_sp(s@.skip(i as int));
            assert forall|k: int| 0 <= k < rest@.len() implies (#[trigger] rest@[k])@ == sp[k] by {
                if k > 0 {
                    assert(rest@[k] == rest@.drop_first()[k - 1]);
                }
            }
        }
        rest
    } else {
        let head = rest.remove(0);
        let mut t = String::new();
        push_char(&mut t, c);
        t.append(head.as_str());
        rest.insert(0, t);
        proof {
            let sp = split_sp(s@.skip(i as int));
            let old_sp = split_sp(s@.skip(i + 1));
            assert(sp[0] =~= seq![s@[i as int]] + old_sp[0]);
            assert(rest@[0]@ =~= sp[0]);
            assert forall|k: int| 0 <= k < rest@.len() implies (#[trigger] rest@[k])@ == sp[k] by {
                if k > 0 {
                    assert(rest@[k] == rest@.drop_first()[k - 1]);
                    assert(sp[k] == old_sp[k]);
                }
            }
        }
        rest
    }
}

/// Splits a line into its space-separated tokens, empty tokens included.
pub fn tokenize(s: &str) -> (r: Vec<String>)
    ensures
        r@.len() == split_sp(s@).len(),
        forall|k: int| 0 <= k < r@.len() ==> (#[trigger] r@[k])@ == split_sp(s@)[k],
        r@.len() >= 1,
{
    proof {
        lemma_split_nonempty(s@);
        assert(s@.skip(0) =~= s@);
    }
    tokenize_from(s, 0)
}

/// Joins tokens with single spaces into one line.
pub fn join_tokens(ts: &Vec<String>) -> (r: String)
    ensures
        r@ == join_sp(token_views(ts@)),
{
    if ts.len() == 0 {
        proof {
            assert(token_views(ts@) =~= Seq::<Seq<char>>::empty());
        }
        return String::new();
    }
    let mut r = ts[0].clone();
    let mut k: usize = 1;
    while k < ts.len()
        invariant
            1 <= k <= ts@.len(),
            r@ == join_sp(token_views(ts@.take(k as int))),
        decreases ts@.len() - k,
    {
        push_char(&mut r, ' ');
        r.append(ts[k].as_str());
        proof {
            let a = token_views(ts@.take(k as int));
            let b = token_views(ts@.take(k + 1));
            assert(b =~~= a.push(ts@[k as int]@));
            lemma_join_push(a, ts@[k as int]@);
            assert(a.len() >= 1);
            assert(r@ =~= join_sp(b));
        }
        k += 1;
    }
    proof {
        assert(ts@.take(ts@.len() as int) =~= ts@);
    }
    r
}

/// The views of a token list.
pub open spec fn token_views(ts: Seq<String>) -> Seq<Seq<char>> {
    Seq::new(ts.len(), |i: int| ts[i]@)
}

} // verus!
