//! Character-sequence utilities shared by the document codec and the merge
//! engine: lexicographic ordering of names, string equality and prefix tests,
//! and the decimal form of the schema version number.

use vstd::prelude::*;

verus! {

/// Lexicographic comparison of two character sequences by code point,
/// the order in which interface names and file names are kept.
pub open spec fn lex_le(a: Seq<char>, b: Seq<char>) -> bool
    decreases a.len(),
{
    if a.len() == 0 {
        true
    } else if b.len() == 0 {
        false
    } else if a[0] != b[0] {
        a[0] < b[0]
    } else {
        lex_le(a.skip(1), b.skip(1))
    }
}

/// `lex_le` is total: any two sequences compare one way or the other.
pub proof fn lemma_lex_le_total(a: Seq<char>, b: Seq<char>)
    ensures
        lex_le(a, b) || lex_le(b, a),
    decreases a.len(),
{
    if a.len() != 0 && b.len() != 0 {
        if a[0] == b[0] {
            lemma_lex_le_total(a.skip(1), b.skip(1));
        } else {
            assert(a[0] < b[0] || b[0] < a[0]);
        }
    }
}

/// `lex_le` is antisymmetric: mutual order means equality.
pub proof fn lemma_lex_le_antisym(a: Seq<char>, b: Seq<char>)
    requires
        lex_le(a, b),
        lex_le(b, a),
    ensures
        a == b,
    decreases a.len(),
{
    if a.len() == 0 {
        assert(b.len() == 0);
        assert(a =~= b);
    } else {
        assert(b.len() != 0);
        assert(a[0] == b[0]);
        lemma_lex_le_antisym(a.skip(1), b.skip(1));
        assert(a =~= seq![a[0]] + a.skip(1));
        assert(b =~= seq![b[0]] + b.skip(1));
    }
}

/// `lex_le` is transitive.
pub proof fn lemma_lex_le_trans(a: Seq<char>, b: Seq<char>, c: Seq<char>)
    requires
        lex_le(a, b),
        lex_le(b, c),
    ensures
        lex_le(a, c),
    decreases a.len(),
{
    if a.len() != 0 && b.len() != 0 && c.len() != 0 {
        if a[0] == b[0] && b[0] == c[0] {
            lemma_lex_le_trans(a.skip(1), b.skip(1), c.skip(1));
        }
    }
}

/// Whether `a@` precedes or equals `b@` in lexicographic code-point order.
pub fn str_lex_le(a: &str, b: &str) -> (r: bool)
    ensures
        r == lex_le(a@, b@),
{
    let a_len = a.unicode_len();
    let b_len = b.unicode_len();
    let mut i: usize = 0;
    assert(a@.skip(0) =~= a@);
    assert(b@.skip(0) =~= b@);
    loop
        invariant
            i <= a_len,
            i <= b_len,
            a_len == a@.len(),
            b_len == b@.len(),
            lex_le(a@, b@) == lex_le(a@.skip(i as int), b@.skip(i as int)),
        decreases a_len - i,
    {
        if i == a_len {
            assert(a@.skip(i as int).len() == 0);
            return true;
        }
        if i == b_len {
            assert(b@.skip(i as int).len() == 0);
            assert(a@.skip(i as int).len() > 0);
            return false;
        }
        let ca = a.get_char(i);
        let cb = b.get_char(i);
        assert(a@.skip(i as int)[0] == ca);
        assert(b@.skip(i as int)[0] == cb);
        if ca != cb {
            return ca < cb;
        }
        assert(a@.skip(i as int).skip(1) =~= a@.skip(i + 1));
        assert(b@.skip(i as int).skip(1) =~= b@.skip(i + 1));
        i = i + 1;
    }
}

/// Whether the two strings hold the same characters.
pub fn str_eq(a: &str, b: &str) -> (r: bool)
    ensures
        r == (a@ == b@),
{
    let a_len = a.unicode_len();
    let b_len = b.unicode_len();
    if a_len != b_len {
        return false;
    }
    let mut i: usize = 0;
    loop
        invariant
            i <= a_len,
            a_len == a@.len(),
            b_len == b@.len(),
            a_len == b_len,
            a@.subrange(0, i as int) =~= b@.subrange(0, i as int),
        decreases a_len - i,
    {
        if i == a_len {
            assert(a@.subrange(0, i as int) =~= a@);
            assert(b@.subrange(0, i as int) =~= b@);
            return true;
        }
        if a.get_char(i) != b.get_char(i) {
            assert(a@[i as int] != b@[i as int]);
            return false;
        }
        i = i + 1;
        assert(a@.subrange(0, i as int) =~= b@.subrange(0, i as int));
    }
}

/// Whether `p` is a prefix of `s`.
pub open spec fn is_prefix_of(p: Seq<char>, s: Seq<char>) -> bool {
    p.len() <= s.len() && s.subrange(0, p.len() as int) == p
}

/// Whether the string `s` starts with the prefix `p`.
pub fn str_starts_with(s: &str, p: &str) -> (r: bool)
    ensures
        r == is_prefix_of(p@, s@),
{
    let s_len = s.unicode_len();
    let p_len = p.unicode_len();
    if p_len > s_len {
        return false;
    }
    let mut i: usize = 0;
    loop
        invariant
            i <= p_len,
            s_len == s@.len(),
            p_len == p@.len(),
            p_len <= s_len,
            s@.subrange(0, i as int) =~= p@.subrange(0, i as int),
        decreases p_len - i,
    {
        if i == p_len {
            assert(p@.subrange(0, i as int) =~= p@);
            return true;
        }
        if s.get_char(i) != p.get_char(i) {
            assert(s@[i as int] != p@[i as int]);
            assert(!is_prefix_of(p@, s@)) by {
                if is_prefix_of(p@, s@) {
                    assert(s@.subrange(0, p@.len() as int)[i as int] == s@[i as int]);
                }
            }
            return false;
        }
        i = i + 1;
        assert(s@.subrange(0, i as int) =~= p@.subrange(0, i as int));
    }
}

/// Collects the characters of a string into a vector.
pub fn str_to_chars(s: &str) -> (r: Vec<char>)
    ensures
        r@ == s@,
{
    let len = s.unicode_len();
    let mut r: Vec<char> = Vec::new();
    let mut i: usize = 0;
    while i < len
        invariant
            i <= len,
            len == s@.len(),
            r@ =~= s@.subrange(0, i as int),
        decreases len - i,
    {
        r.push(s.get_char(i));
        i = i + 1;
        assert(r@ =~= s@.subrange(0, i as int));
    }
    assert(r@ =~= s@);
    r
}

/// Relies on `String`'s `FromIterator` impl: collecting a sequence of
/// characters yields the string of exactly those characters.
#[verifier::external_body]
pub fn chars_to_string(v: &Vec<char>) -> (s: String)
    ensures
        s@ == v@,
{
    v.iter().collect()
}

/// The decimal digits of `n`, most significant first.
pub open spec fn dec_digits(n: nat) -> Seq<char>
    decreases n,
{
    if n < 10 {
        seq![digit_char(n)]
    } else {
        dec_digits(n / 10) + seq![digit_char(n % 10)]
    }
}

/// The character for one decimal digit value.
pub open spec fn digit_char(d: nat) -> char {
    if d == 0 { '0' }
    else if d == 1 { '1' }
    else if d == 2 { '2' }
    else if d == 3 { '3' }
    else if d == 4 { '4' }
    else if d == 5 { '5' }
    else if d == 6 { '6' }
    else if d == 7 { '7' }
    else if d == 8 { '8' }
    else { '9' }
}

/// The numeric value of a digit character, or 10 for any other character.
pub open spec fn char_digit(c: char) -> nat {
    if c == '0' { 0 }
    else if c == '1' { 1 }
    else if c == '2' { 2 }
    else if c == '3' { 3 }
    else if c == '4' { 4 }
    else if c == '5' { 5 }
    else if c == '6' { 6 }
    else if c == '7' { 7 }
    else if c == '8' { 8 }
    else if c == '9' { 9 }
    else { 10 }
}

/// The value of a digit string read left to right, if every character is a
/// digit and the text is non-empty; `None` otherwise. `acc` carries the value
/// of the digits already read.
pub open spec fn dec_value_acc(s: Seq<char>, acc: nat) -> Option<nat>
    decreases s.len(),
{
    if s.len() == 0 {
        Some(acc)
    } else if char_digit(s[0]) >= 10 {
        None
    } else {
        dec_value_acc(s.skip(1), acc * 10 + char_digit(s[0]))
    }
}

/// The numeric value of a non-empty all-digit string.
pub open spec fn dec_value(s: Seq<char>) -> Option<nat> {
    if s.len() == 0 {
        None
    } else {
        dec_value_acc(s, 0)
    }
}

pub proof fn lemma_dec_digits_all_digits(n: nat)
    ensures
        dec_digits(n).len() >= 1,
        forall|i: int| 0 <= i < dec_digits(n).len() ==> char_digit(#[trigger] dec_digits(n)[i]) < 10,
    decreases n,
{
    if n >= 10 {
        lemma_dec_digits_all_digits(n / 10);
    }
}

proof fn lemma_dec_value_acc_append(s: Seq<char>, t: Seq<char>, acc: nat)
    requires
        dec_value_acc(s, acc) is Some,
    ensures
        dec_value_acc(s + t, acc) == dec_value_acc(t, dec_value_acc(s, acc)->Some_0),
    decreases s.len(),
{
    if s.len() == 0 {
        assert(s + t =~= t);
    } else {
        assert((s + t).skip(1) =~= s.skip(1) + t);
        lemma_dec_value_acc_append(s.skip(1), t, acc * 10 + char_digit(s[0]));
    }
}

proof fn lemma_dec_digits_value_acc(n: nat, acc: nat)
    ensures
        dec_value_acc(dec_digits(n), acc) == Some((acc * vstd::arithmetic::power::pow(10, dec_digits(n).len()) + n) as nat),
    decreases n,
{
    vstd::arithmetic::power::lemma_pow_positive(10, dec_digits(n).len() as nat);
    if n < 10 {
        assert(dec_digits(n) == seq![digit_char(n)]);
        assert(char_digit(digit_char(n)) == n);
        assert(dec_digits(n).skip(1).len() == 0);
        vstd::arithmetic::power::lemma_pow1(10);
        let s1 = seq![digit_char(n)];
        assert(s1.skip(1) =~= Seq::<char>::empty());
        assert(dec_value_acc(s1.skip(1), acc * 10 + n) == Some(acc * 10 + n));
        assert(char_digit(s1[0]) == n);
        assert(dec_value_acc(s1, acc) == Some(acc * 10 + n));
    } else {
        let hi = dec_digits(n / 10);
        let lo = seq![digit_char(n % 10)];
        assert(dec_digits(n) == hi + lo);
        lemma_dec_digits_value_acc(n / 10, acc);
        lemma_dec_value_acc_append(hi, lo, acc);
        let k = hi.len();
        let vh = (acc * vstd::arithmetic::power::pow(10, k) + n / 10) as nat;
        assert(dec_value_acc(hi, acc) == Some(vh));
        assert(char_digit(digit_char((n % 10) as nat)) == n % 10);
        assert(lo.skip(1) =~= Seq::<char>::empty());
        assert(dec_value_acc(lo.skip(1), vh * 10 + n % 10) == Some((vh * 10 + n % 10) as nat));
        assert(char_digit(lo[0]) == n % 10);
        assert(dec_value_acc(lo, vh) == Some((vh * 10 + n % 10) as nat));
        assert((hi + lo).len() == k + 1);
        assert(vstd::arithmetic::power::pow(10, k + 1) == 10 * vstd::arithmetic::power::pow(10, k)) by {
            vstd::arithmetic::power::lemma_pow_adds(10, k as nat, 1);
            vstd::arithmetic::power::lemma_pow1(10);
        }
        assert(vh * 10 + n % 10 == acc * (10 * vstd::arithmetic::power::pow(10, k)) + n) by (nonlinear_arith)
            requires
                vh == acc * vstd::arithmetic::power::pow(10, k) + n / 10,
                n % 10 == n - 10 * (n / 10),
        {
        }
    }
}

/// Reading back the decimal digits of `n` yields `n`.
pub proof fn lemma_dec_round_trip(n: nat)
    ensures
        dec_value(dec_digits(n)) == Some(n),
{
    lemma_dec_digits_all_digits(n);
    lemma_dec_digits_value_acc(n, 0);
}

/// Writes the decimal digits of `n` onto the end of `out`.
pub fn push_dec_digits(out: &mut Vec<char>, n: u32)
    ensures
        final(out)@ == old(out)@ + dec_digits(n as nat),
    decreases n,
{
    let d: u32 = n % 10;
    let c: char = match d {
        0 => '0',
        1 => '1',
        2 => '2',
        3 => '3',
        4 => '4',
        5 => '5',
        6 => '6',
        7 => '7',
        8 => '8',
        _ => '9',
    };
    assert(c == digit_char((n % 10) as nat));
    if n < 10 {
        out.push(c);
        assert(out@ =~= old(out)@ + dec_digits(n as nat));
    } else {
        push_dec_digits(out, n / 10);
        out.push(c);
        assert(out@ =~= old(out)@ + dec_digits(n as nat));
    }
}

} // verus!
