//! Decimal strings and lexicographic ordering of strings.
//!
//! Revisions are printed and parsed in canonical decimal form, and resource
//! collections are kept sorted by name, so both facilities live here with
//! full functional contracts.

use vstd::prelude::*;

use crate::resources::DeepClone;

verus! {

// ---------------------------------------------------------------------------
// Decimal representation
// ---------------------------------------------------------------------------

/// A character is a decimal digit.
pub open spec fn is_digit(c: char) -> bool {
    48 <= c as u32 && c as u32 <= 57
}

/// Numeric value of a digit character.
pub open spec fn digit_val(c: char) -> nat {
    (c as u32 - 48) as nat
}

/// The digit character for a value below ten.
pub open spec fn digit_char(d: nat) -> char {
    if d == 0 {
        '0'
    } else if d == 1 {
        '1'
    } else if d == 2 {
        '2'
    } else if d == 3 {
        '3'
    } else if d == 4 {
        '4'
    } else if d == 5 {
        '5'
    } else if d == 6 {
        '6'
    } else if d == 7 {
        '7'
    } else if d == 8 {
        '8'
    } else {
        '9'
    }
}

/// Every character of the string is a decimal digit.
pub open spec fn all_digits(s: Seq<char>) -> bool {
    forall|i: int| 0 <= i < s.len() ==> is_digit(#[trigger] s[i])
}

/// The numeric value of a digit string, most significant digit first.
pub open spec fn str_val(s: Seq<char>) -> nat
    decreases s.len(),
{
    if s.len() == 0 {
        0
    } else {
        str_val(s.drop_last()) * 10 + digit_val(s.last())
    }
}

/// The canonical decimal string of a number: no leading zeros, "0" for zero.
pub open spec fn dec_str(n: nat) -> Seq<char>
    decreases n,
{
    if n < 10 {
        seq![digit_char(n)]
    } else {
        dec_str(n / 10).push(digit_char(n % 10))
    }
}

pub proof fn lemma_dec_str_wf(n: nat)
    ensures
        dec_str(n).len() >= 1,
        all_digits(dec_str(n)),
        str_val(dec_str(n)) == n,
    decreases n,
{
    if n < 10 {
        assert(dec_str(n) == seq![digit_char(n)]);
        assert(dec_str(n).drop_last() =~= Seq::<char>::empty());
        assert(digit_val(digit_char(n)) == n);
        assert(str_val(dec_str(n)) == str_val(dec_str(n).drop_last()) * 10 + digit_val(
            dec_str(n).last(),
        ));
    } else {
        lemma_dec_str_wf(n / 10);
        let s = dec_str(n);
        assert(s == dec_str(n / 10).push(digit_char(n % 10)));
        assert(s.drop_last() =~= dec_str(n / 10));
        assert(s.last() == digit_char(n % 10));
        assert(digit_val(digit_char(n % 10)) == n % 10);
        assert(str_val(s) == (n / 10) * 10 + n % 10);
        assert((n / 10) * 10 + n % 10 == n) by (nonlinear_arith);
        assert forall|i: int| 0 <= i < s.len() implies is_digit(#[trigger] s[i]) by {
            if i < s.len() - 1 {
                assert(s[i] == dec_str(n / 10)[i]);
            }
        }
    }
}

/// A 32-bit number prints in at most ten digits.
pub proof fn lemma_dec_str_len(n: nat)
    requires
        n <= u32::MAX,
    ensures
        dec_str(n).len() <= 10,
{
    assert(pow10(0) == 1);
    assert(pow10(1) == 10);
    assert(pow10(2) == 100);
    assert(pow10(3) == 1000);
    assert(pow10(4) == 10000);
    assert(pow10(5) == 100000);
    assert(pow10(6) == 1000000);
    assert(pow10(7) == 10000000);
    assert(pow10(8) == 100000000);
    assert(pow10(9) == 1000000000);
    assert(pow10(10) == 10000000000);
    lemma_dec_str_len_rec(n, 10);
}

proof fn lemma_dec_str_len_rec(n: nat, d: nat)
    requires
        n < pow10(d),
    ensures
        dec_str(n).len() <= if d == 0 {
            1
        } else {
            d
        },
    decreases d,
{
    if n < 10 {
    } else {
        assert(d >= 2) by {
            if d <= 1 {
                assert(pow10(d) <= 10) by {
                    if d == 1 {
                        assert(pow10(1) == 10 * pow10(0));
                    }
                }
            }
        }
        assert(pow10(d) == 10 * pow10((d - 1) as nat));
        assert(n / 10 < pow10((d - 1) as nat)) by (nonlinear_arith)
            requires
                n < 10 * pow10((d - 1) as nat),
                n >= 10,
        ;
        lemma_dec_str_len_rec(n / 10, (d - 1) as nat);
    }
}

/// Powers of ten.
pub open spec fn pow10(d: nat) -> nat
    decreases d,
{
    if d == 0 {
        1
    } else {
        10 * pow10((d - 1) as nat)
    }
}

/// Values of digit-string prefixes never decrease as the prefix grows.
pub proof fn lemma_str_val_prefix_le(s: Seq<char>, i: int, j: int)
    requires
        0 <= i <= j <= s.len(),
    ensures
        str_val(s.take(i)) <= str_val(s.take(j)),
    decreases j - i,
{
    if i < j {
        lemma_str_val_prefix_le(s, i, j - 1);
        let p = s.take(j);
        assert(p.drop_last() =~= s.take(j - 1));
        assert(str_val(s.take(j)) == str_val(s.take(j - 1)) * 10 + digit_val(p.last()));
        assert(str_val(s.take(j - 1)) * 10 >= str_val(s.take(j - 1))) by (nonlinear_arith);
    }
}

/// A single digit character as a string slice.
fn digit_str(d: u64) -> (s: &'static str)
    requires
        d < 10,
    ensures
        s@ =~= seq![digit_char(d as nat)],
{
    proof {
        reveal_strlit("0");
        reveal_strlit("1");
        reveal_strlit("2");
        reveal_strlit("3");
        reveal_strlit("4");
        reveal_strlit("5");
        reveal_strlit("6");
        reveal_strlit("7");
        reveal_strlit("8");
        reveal_strlit("9");
    }
    if d == 0 {
        "0"
    } else if d == 1 {
        "1"
    } else if d == 2 {
        "2"
    } else if d == 3 {
        "3"
    } else if d == 4 {
        "4"
    } else if d == 5 {
        "5"
    } else if d == 6 {
        "6"
    } else if d == 7 {
        "7"
    } else if d == 8 {
        "8"
    } else {
        "9"
    }
}

/// Append the canonical decimal form of `n` to `out`.
fn push_dec(n: u64, out: &mut String)
    ensures
        final(out)@ == old(out)@ + dec_str(n as nat),
    decreases n,
{
    if n < 10 {
        let ghost before = out@;
        out.append(digit_str(n));
        assert(final(out)@ =~= before + dec_str(n as nat));
    } else {
        let ghost before = out@;
        push_dec(n / 10, out);
        out.append(digit_str(n % 10));
        assert(final(out)@ =~= before + dec_str(n as nat));
    }
}

/// The canonical decimal string of `n`.
pub fn u64_to_string(n: u64) -> (s: String)
    ensures
        s@ == dec_str(n as nat),
{
    let mut s = String::new();
    push_dec(n, &mut s);
    proof {
        assert(s@ =~= dec_str(n as nat));
    }
    s
}

/// Parse a decimal string. Returns the value exactly when the string is a
/// non-empty run of digits whose value fits in a `u64`.
pub fn parse_u64(s: &str) -> (r: Option<u64>)
    ensures
        r is Some <==> s@.len() > 0 && all_digits(s@) && str_val(s@) <= u64::MAX,
        r matches Some(v) ==> v as nat == str_val(s@),
{
    let len = s.unicode_len();
    if len == 0 {
        return None;
    }
    let mut acc: u64 = 0;
    let mut i: usize = 0;
    while i < len
        invariant
            0 < len == s@.len(),
            0 <= i <= len,
            all_digits(s@.take(i as int)),
            acc as nat == str_val(s@.take(i as int)),
        decreases len - i,
    {
        let c = s.get_char(i);
        let u = c as u32;
        if u < 48 || u > 57 {
            assert(!is_digit(s@[i as int]));
            return None;
        }
        let d = (u - 48) as u64;
        proof {
            assert(s@.take(i + 1).drop_last() =~= s@.take(i as int));
            assert(s@.take(i + 1).last() == s@[i as int]);
        }
        if acc > (u64::MAX - d) / 10 {
            proof {
                let v = str_val(s@.take(i + 1));
                assert(v == acc as nat * 10 + d as nat);
                assert(acc as nat * 10 + d as nat > u64::MAX) by (nonlinear_arith)
                    requires
                        acc > (u64::MAX - d) / 10,
                        d < 10,
                ;
                lemma_str_val_prefix_le(s@, i + 1, s@.len() as int);
                assert(s@.take(s@.len() as int) =~= s@);
            }
            return None;
        }
        proof {
            assert(acc as nat * 10 + d as nat <= u64::MAX) by (nonlinear_arith)
                requires
                    acc <= (u64::MAX - d) / 10,
                    d < 10,
            ;
        }
        acc = acc * 10 + d;
        i = i + 1;
        proof {
            assert(forall|j: int|
                0 <= j < i ==> is_digit(#[trigger] s@.take(i as int)[j]));
        }
    }
    proof {
        assert(s@.take(len as int) =~= s@);
    }
    Some(acc)
}

// ---------------------------------------------------------------------------
// Lexicographic order on strings
// ---------------------------------------------------------------------------

/// Strict lexicographic order on character sequences, by unicode scalar value.
pub open spec fn lex_lt(a: Seq<char>, b: Seq<char>) -> bool
    decreases a.len(),
{
    if b.len() == 0 {
        false
    } else if a.len() == 0 {
        true
    } else if (a[0] as u32) < (b[0] as u32) {
        true
    } else if (b[0] as u32) < (a[0] as u32) {
        false
    } else {
        lex_lt(a.drop_first(), b.drop_first())
    }
}

pub proof fn lemma_lex_lt_irrefl(a: Seq<char>)
    ensures
        !lex_lt(a, a),
    decreases a.len(),
{
    if a.len() > 0 {
        lemma_lex_lt_irrefl(a.drop_first());
    }
}

/// Two strings that are not ordered either way are equal.
pub proof fn lemma_lex_lt_connected(a: Seq<char>, b: Seq<char>)
    requires
        !lex_lt(a, b),
        !lex_lt(b, a),
    ensures
        a =~= b,
    decreases a.len(),
{
    if a.len() == 0 || b.len() == 0 {
    } else {
        assert(a[0] as u32 == b[0] as u32);
        vstd::utf8::char_u32_cast(a[0], a[0] as u32);
        vstd::utf8::char_u32_cast(b[0], b[0] as u32);
        assert(a[0] == b[0]);
        lemma_lex_lt_connected(a.drop_first(), b.drop_first());
        assert(a =~= seq![a[0]] + a.drop_first());
        assert(b =~= seq![b[0]] + b.drop_first());
    }
}

pub proof fn lemma_lex_lt_trans(a: Seq<char>, b: Seq<char>, c: Seq<char>)
    requires
        lex_lt(a, b),
        lex_lt(b, c),
    ensures
        lex_lt(a, c),
    decreases a.len() + b.len() + c.len(),
{
    if a.len() == 0 {
        assert(b.len() > 0);
        assert(c.len() > 0);
    } else {
        assert(b.len() > 0 && c.len() > 0);
        if (a[0] as u32) < (b[0] as u32) {
            if (b[0] as u32) < (c[0] as u32) {
            } else {
                assert(b[0] as u32 == c[0] as u32);
            }
        } else {
            assert(a[0] as u32 == b[0] as u32);
            if (b[0] as u32) < (c[0] as u32) {
            } else {
                assert(b[0] as u32 == c[0] as u32);
                lemma_lex_lt_trans(a.drop_first(), b.drop_first(), c.drop_first());
            }
        }
    }
}

/// One unfolding step of `lex_lt` after a common prefix of equal characters.
proof fn lemma_lex_lt_step(a: Seq<char>, b: Seq<char>, i: int)
    requires
        0 <= i < a.len(),
        0 <= i < b.len(),
        forall|j: int| 0 <= j < i ==> a[j] == b[j],
    ensures
        lex_lt(a, b) == if (a[i] as u32) < (b[i] as u32) {
            true
        } else if (b[i] as u32) < (a[i] as u32) {
            false
        } else {
            lex_lt(a.skip(i + 1), b.skip(i + 1))
        },
    decreases i,
{
    if i == 0 {
        assert(a.drop_first() =~= a.skip(1));
        assert(b.drop_first() =~= b.skip(1));
    } else {
        assert(a[0] == b[0]);
        let a1 = a.drop_first();
        let b1 = b.drop_first();
        lemma_lex_lt_step(a1, b1, i - 1);
        assert(a1[i - 1] == a[i]);
        assert(b1[i - 1] == b[i]);
        assert(a1.skip(i) =~= a.skip(i + 1));
        assert(b1.skip(i) =~= b.skip(i + 1));
    }
}

/// `lex_lt` when one string is exhausted after a common prefix.
proof fn lemma_lex_lt_prefix(a: Seq<char>, b: Seq<char>, i: int)
    requires
        0 <= i,
        i == a.len() || i == b.len(),
        i <= a.len(),
        i <= b.len(),
        forall|j: int| 0 <= j < i ==> a[j] == b[j],
    ensures
        lex_lt(a, b) == (a.len() < b.len()),
    decreases i,
{
    if i == 0 {
    } else {
        assert(a[0] == b[0]);
        lemma_lex_lt_prefix(a.drop_first(), b.drop_first(), i - 1);
    }
}

/// Decide the strict lexicographic order of two strings.
pub fn str_lt(a: &str, b: &str) -> (r: bool)
    ensures
        r == lex_lt(a@, b@),
{
    let la = a.unicode_len();
    let lb = b.unicode_len();
    let mut i: usize = 0;
    loop
        invariant
            i <= la == a@.len(),
            i <= lb == b@.len(),
            forall|j: int| 0 <= j < i ==> a@[j] == b@[j],
        decreases la - i,
    {
        if i >= la || i >= lb {
            proof {
                lemma_lex_lt_prefix(a@, b@, i as int);
            }
            return la < lb;
        }
        let ca = a.get_char(i);
        let cb = b.get_char(i);
        proof {
            lemma_lex_lt_step(a@, b@, i as int);
        }
        if (ca as u32) < (cb as u32) {
            return true;
        }
        if (cb as u32) < (ca as u32) {
            return false;
        }
        proof {
            vstd::utf8::char_u32_cast(ca, ca as u32);
            vstd::utf8::char_u32_cast(cb, cb as u32);
        }
        assert(a@[i as int] == b@[i as int]);
        i = i + 1;
    }
}

/// Decide equality of two strings.
pub fn str_eq(a: &str, b: &str) -> (r: bool)
    ensures
        r == (a@ == b@),
{
    let la = a.unicode_len();
    let lb = b.unicode_len();
    if la != lb {
        return false;
    }
    let mut i: usize = 0;
    while i < la
        invariant
            i <= la == a@.len(),
            la == lb == b@.len(),
            forall|j: int| 0 <= j < i ==> a@[j] == b@[j],
        decreases la - i,
    {
        let ca = a.get_char(i);
        let cb = b.get_char(i);
        if ca as u32 != cb as u32 {
            return false;
        }
        proof {
            vstd::utf8::char_u32_cast(ca, ca as u32);
            vstd::utf8::char_u32_cast(cb, cb as u32);
        }
        assert(a@[i as int] == b@[i as int]);
        i = i + 1;
    }
    proof {
        assert(a@ =~= b@);
    }
    true
}


// ---------------------------------------------------------------------------
// Sorted string sets
// ---------------------------------------------------------------------------

/// Strictly sorted, hence duplicate-free.
pub open spec fn str_sorted(s: Seq<Seq<char>>) -> bool {
    forall|i: int, j: int| 0 <= i < j < s.len() ==> lex_lt(#[trigger] s[i], #[trigger] s[j])
}

/// Membership in a string set.
pub open spec fn str_set_has(s: Seq<Seq<char>>, x: Seq<char>) -> bool {
    exists|i: int| 0 <= i < s.len() && #[trigger] s[i] == x
}

/// The sorted string set with `x` added; unchanged when already present.
pub open spec fn str_set_put(s: Seq<Seq<char>>, x: Seq<char>) -> Seq<Seq<char>>
    decreases s.len(),
{
    if s.len() == 0 {
        seq![x]
    } else if lex_lt(s[0], x) {
        seq![s[0]] + str_set_put(s.drop_first(), x)
    } else if s[0] == x {
        s
    } else {
        seq![x] + s
    }
}

/// Adding to a sorted string set keeps it sorted, grows it by at most one
/// entry, and changes membership for the added string alone.
pub proof fn lemma_str_set_put(s: Seq<Seq<char>>, x: Seq<char>)
    requires
        str_sorted(s),
    ensures
        str_sorted(str_set_put(s, x)),
        str_set_has(str_set_put(s, x), x),
        forall|y: Seq<char>|
            #[trigger] str_set_has(str_set_put(s, x), y) == (str_set_has(s, y) || y == x),
        s.len() <= str_set_put(s, x).len() <= s.len() + 1,
    decreases s.len(),
{
    let out = str_set_put(s, x);
    if s.len() == 0 {
        assert(out == seq![x]);
        assert(out[0] == x);
        assert forall|y: Seq<char>| #[trigger] str_set_has(out, y) == (str_set_has(s, y) || y
            == x) by {
            if str_set_has(out, y) {
                let i = choose|i: int| 0 <= i < out.len() && out[i] == y;
                assert(out[i] == x);
            }
            if y == x {
                assert(out[0] == y);
            }
        }
    } else if lex_lt(s[0], x) {
        let s1 = s.drop_first();
        assert(str_sorted(s1)) by {
            assert(forall|i: int, j: int|
                0 <= i < j < s1.len() ==> #[trigger] s1[i] == s[i + 1] && #[trigger] s1[j] == s[j
                    + 1]);
        }
        lemma_str_set_put(s1, x);
        let o1 = str_set_put(s1, x);
        assert(out == seq![s[0]] + o1);
        assert forall|a: int, b: int| 0 <= a < b < out.len() implies lex_lt(
            #[trigger] out[a],
            #[trigger] out[b],
        ) by {
            if a == 0 {
                assert(out[b] == o1[b - 1]);
                assert(str_set_has(o1, o1[b - 1]));
                if str_set_has(s1, o1[b - 1]) {
                    let i = choose|i: int| 0 <= i < s1.len() && s1[i] == o1[b - 1];
                    assert(s1[i] == s[i + 1]);
                    assert(lex_lt(s[0], s[i + 1]));
                } else {
                    assert(o1[b - 1] == x);
                }
            } else {
                assert(out[a] == o1[a - 1] && out[b] == o1[b - 1]);
            }
        }
        assert(str_set_has(out, x)) by {
            let i = choose|i: int| 0 <= i < o1.len() && o1[i] == x;
            assert(out[i + 1] == x);
        }
        assert forall|y: Seq<char>| #[trigger] str_set_has(out, y) == (str_set_has(s, y) || y
            == x) by {
            if str_set_has(out, y) {
                let i = choose|i: int| 0 <= i < out.len() && out[i] == y;
                if i == 0 {
                    assert(s[0] == y);
                } else {
                    assert(o1[i - 1] == y);
                    assert(str_set_has(o1, y));
                    if str_set_has(s1, y) {
                        let j = choose|j: int| 0 <= j < s1.len() && s1[j] == y;
                        assert(s[j + 1] == y);
                    }
                }
            }
            if str_set_has(s, y) {
                let i = choose|i: int| 0 <= i < s.len() && s[i] == y;
                if i == 0 {
                    assert(out[0] == y);
                } else {
                    assert(s1[i - 1] == y);
                    assert(str_set_has(o1, y));
                    let j = choose|j: int| 0 <= j < o1.len() && o1[j] == y;
                    assert(out[j + 1] == y);
                }
            }
            if y == x {
                assert(str_set_has(out, x));
            }
        }
    } else if s[0] == x {
        assert(out == s);
        assert(str_set_has(out, x)) by {
            assert(out[0] == x);
        }
    } else {
        assert(out == seq![x] + s);
        if !lex_lt(x, s[0]) {
            lemma_lex_lt_connected(s[0], x);
        }
        assert(lex_lt(x, s[0]));
        assert forall|a: int, b: int| 0 <= a < b < out.len() implies lex_lt(
            #[trigger] out[a],
            #[trigger] out[b],
        ) by {
            if a == 0 {
                assert(out[b] == s[b - 1]);
                if b > 1 {
                    lemma_lex_lt_trans(x, s[0], s[b - 1]);
                }
            } else {
                assert(out[a] == s[a - 1] && out[b] == s[b - 1]);
            }
        }
        assert(out[0] == x);
        assert forall|y: Seq<char>| #[trigger] str_set_has(out, y) == (str_set_has(s, y) || y
            == x) by {
            if str_set_has(out, y) {
                let i = choose|i: int| 0 <= i < out.len() && out[i] == y;
                if i > 0 {
                    assert(s[i - 1] == y);
                }
            }
            if str_set_has(s, y) {
                let i = choose|i: int| 0 <= i < s.len() && s[i] == y;
                assert(out[i + 1] == y);
            }
        }
    }
}

/// Add a string to a sorted string set.
pub fn str_set_insert(v: &mut Vec<String>, x: String)
    requires
        str_sorted(old(v).deep_view()),
    ensures
        final(v).deep_view() == str_set_put(old(v).deep_view(), x@),
        str_sorted(final(v).deep_view()),
{
    let ghost s0 = old(v).deep_view();
    proof {
        lemma_str_set_put(s0, x@);
    }
    let mut i: usize = 0;
    while i < v.len() && str_lt(v[i].as_str(), x.as_str())
        invariant
            s0 == old(v).deep_view(),
            v.deep_view() == s0,
            i <= v@.len() == s0.len(),
            forall|j: int| 0 <= j < i ==> lex_lt(#[trigger] s0[j], x@),
        decreases v.len() - i,
    {
        proof {
            assert(s0[i as int] == v@[i as int]@);
        }
        i = i + 1;
    }
    proof {
        if i < v.len() {
            assert(s0[i as int] == v@[i as int]@);
        }
    }
    if i < v.len() && str_eq(v[i].as_str(), x.as_str()) {
        proof {
            assert(s0[i as int] == v@[i as int]@);
            assert(s0[i as int] == x@);
            lemma_lex_lt_irrefl(x@);
            lemma_str_set_put_unfold(s0, x@, i as int);
            assert(str_set_put(s0, x@) == s0);
        }
        return ;
    }
    let ghost pre = v@;
    v.insert(i, x);
    proof {
        lemma_str_set_put_unfold(s0, x@, i as int);
        assert forall|j: int| 0 <= j < v.deep_view().len() implies v.deep_view()[j] == s0.insert(
            i as int,
            x@,
        )[j] by {
            assert(v.deep_view()[j] == v@[j]@);
            if j < i {
                assert(v@[j] == pre[j]);
                assert(s0[j] == pre[j]@);
            } else if j > i {
                assert(v@[j] == pre[j - 1]);
                assert(s0[j - 1] == pre[j - 1]@);
            }
        }
        assert(v.deep_view() =~= s0.insert(i as int, x@));
    }
}

/// What `str_set_put` yields once the scan position is known: with every
/// name before `i` strictly below `x`, the set is unchanged when `x` sits at
/// `i`, and otherwise `x` is inserted at `i`.
pub open spec fn str_set_put_at(s: Seq<Seq<char>>, x: Seq<char>, i: int) -> Seq<Seq<char>> {
    if i < s.len() && s[i] == x {
        s
    } else {
        s.insert(i, x)
    }
}

proof fn lemma_str_set_put_unfold(s: Seq<Seq<char>>, x: Seq<char>, i: int)
    requires
        str_sorted(s),
        0 <= i <= s.len(),
        forall|j: int| 0 <= j < i ==> lex_lt(#[trigger] s[j], x),
        i < s.len() ==> !lex_lt(s[i], x),
    ensures
        str_set_put(s, x) == str_set_put_at(s, x, i),
    decreases i,
{
    if i == 0 {
        if s.len() == 0 {
            assert(str_set_put(s, x) =~= s.insert(0, x));
        } else if s[0] == x {
        } else {
            assert(str_set_put(s, x) =~= s.insert(0, x));
        }
    } else {
        let s1 = s.drop_first();
        assert(str_sorted(s1)) by {
            assert(forall|a: int, b: int|
                0 <= a < b < s1.len() ==> #[trigger] s1[a] == s[a + 1] && #[trigger] s1[b] == s[b
                    + 1]);
        }
        assert(forall|j: int| 0 <= j < i - 1 ==> lex_lt(#[trigger] s1[j], x)) by {
            assert(forall|j: int| 0 <= j < i - 1 ==> #[trigger] s1[j] == s[j + 1]);
        }
        assert(i - 1 < s1.len() ==> !lex_lt(s1[i - 1], x));
        lemma_str_set_put_unfold(s1, x, i - 1);
        assert(lex_lt(s[0], x));
        assert(str_set_put(s, x) == seq![s[0]] + str_set_put(s1, x));
        if i < s.len() && s[i] == x {
            assert(s1[i - 1] == x);
            assert(seq![s[0]] + s1 =~= s);
        } else {
            assert(seq![s[0]] + s1.insert(i - 1, x) =~= s.insert(i, x));
        }
    }
}

// ---------------------------------------------------------------------------
// Sorted maps and sets over plain keys
// ---------------------------------------------------------------------------

/// Strictly sorted by key, hence key-unique.
pub open spec fn kmap_sorted<V>(s: Seq<(usize, V)>) -> bool {
    forall|i: int, j: int| 0 <= i < j < s.len() ==> (#[trigger] s[i]).0 < (#[trigger] s[j]).0
}

/// Membership of a key.
pub open spec fn kmap_has<V>(s: Seq<(usize, V)>, k: usize) -> bool {
    exists|i: int| 0 <= i < s.len() && (#[trigger] s[i]).0 == k
}

/// The value bound to a key, if any.
pub open spec fn kmap_get<V>(s: Seq<(usize, V)>, k: usize) -> Option<V>
    decreases s.len(),
{
    if s.len() == 0 {
        None
    } else if s[0].0 == k {
        Some(s[0].1)
    } else {
        kmap_get(s.drop_first(), k)
    }
}

/// The map with `k` bound to `v`, keeping the keys sorted.
pub open spec fn kmap_put<V>(s: Seq<(usize, V)>, k: usize, v: V) -> Seq<(usize, V)>
    decreases s.len(),
{
    if s.len() == 0 {
        seq![(k, v)]
    } else if s[0].0 < k {
        seq![s[0]] + kmap_put(s.drop_first(), k, v)
    } else if s[0].0 == k {
        seq![(k, v)] + s.drop_first()
    } else {
        seq![(k, v)] + s
    }
}

/// The map with the binding of `k` removed.
pub open spec fn kmap_del<V>(s: Seq<(usize, V)>, k: usize) -> Seq<(usize, V)>
    decreases s.len(),
{
    if s.len() == 0 {
        s
    } else if s[0].0 == k {
        s.drop_first()
    } else {
        seq![s[0]] + kmap_del(s.drop_first(), k)
    }
}

/// Membership of a number in a plain sequence of indexes.
pub open spec fn uset_covers(s: Seq<u32>, x: int) -> bool {
    exists|i: int| 0 <= i < s.len() && #[trigger] s[i] == x
}

/// Membership in a sorted plain set.
pub open spec fn uset_has(s: Seq<usize>, k: usize) -> bool {
    exists|i: int| 0 <= i < s.len() && #[trigger] s[i] == k
}

/// Strictly sorted, hence duplicate-free.
pub open spec fn uset_sorted(s: Seq<usize>) -> bool {
    forall|i: int, j: int| 0 <= i < j < s.len() ==> #[trigger] s[i] < #[trigger] s[j]
}

/// The sorted plain set with `k` added; unchanged when already present.
pub open spec fn uset_put(s: Seq<usize>, k: usize) -> Seq<usize>
    decreases s.len(),
{
    if s.len() == 0 {
        seq![k]
    } else if s[0] < k {
        seq![s[0]] + uset_put(s.drop_first(), k)
    } else if s[0] == k {
        s
    } else {
        seq![k] + s
    }
}


/// Whatever `kmap_get` returns is one of the map's entries.
pub proof fn lemma_kmap_get_mem<V>(s: Seq<(usize, V)>, k: usize)
    ensures
        kmap_get(s, k) matches Some(n) ==> s.contains((k, n)),
    decreases s.len(),
{
    if s.len() > 0 {
        if s[0].0 == k {
            assert(s[0] == (k, s[0].1));
        } else {
            lemma_kmap_get_mem(s.drop_first(), k);
            match kmap_get(s, k) {
                Some(n) => {
                    let s1 = s.drop_first();
                    assert(s1.contains((k, n)));
                    let i = choose|i: int| 0 <= i < s1.len() && s1[i] == (k, n);
                    assert(s[i + 1] == (k, n));
                },
                None => {},
            }
        }
    }
}

/// Binding a key keeps the map sorted; every entry of the result is the new
/// binding or one of the old entries.
pub proof fn lemma_kmap_put_props<V>(s: Seq<(usize, V)>, k: usize, v: V)
    requires
        kmap_sorted(s),
    ensures
        kmap_sorted(kmap_put(s, k, v)),
        forall|j: int|
            0 <= j < kmap_put(s, k, v).len() ==> #[trigger] kmap_put(s, k, v)[j] == (k, v)
                || s.contains(kmap_put(s, k, v)[j]),
        kmap_has(kmap_put(s, k, v), k),
        forall|q: usize|
            #[trigger] kmap_has(kmap_put(s, k, v), q) == (kmap_has(s, q) || q == k),
    decreases s.len(),
{
    let out = kmap_put(s, k, v);
    if s.len() == 0 {
        assert(out == seq![(k, v)]);
        assert(out[0] == (k, v));
        assert forall|q: usize| #[trigger] kmap_has(out, q) == (kmap_has(s, q) || q == k) by {
            if kmap_has(out, q) {
                let i = choose|i: int| 0 <= i < out.len() && out[i].0 == q;
                assert(out[i] == (k, v));
            }
        }
    } else if s[0].0 < k {
        let s1 = s.drop_first();
        assert(kmap_sorted(s1)) by {
            assert(forall|i: int, j: int|
                0 <= i < j < s1.len() ==> #[trigger] s1[i] == s[i + 1] && #[trigger] s1[j] == s[j
                    + 1]);
        }
        lemma_kmap_put_props(s1, k, v);
        let o1 = kmap_put(s1, k, v);
        assert(out == seq![s[0]] + o1);
        assert forall|a: int, b: int| 0 <= a < b < out.len() implies (#[trigger] out[a]).0 < (
        #[trigger] out[b]).0 by {
            if a == 0 {
                assert(out[b] == o1[b - 1]);
                if o1[b - 1] == (k, v) {
                } else {
                    assert(s1.contains(o1[b - 1]));
                    let i = choose|i: int| 0 <= i < s1.len() && s1[i] == o1[b - 1];
                    assert(s1[i] == s[i + 1]);
                }
            } else {
                assert(out[a] == o1[a - 1] && out[b] == o1[b - 1]);
            }
        }
        assert forall|j: int| 0 <= j < out.len() implies #[trigger] out[j] == (k, v)
            || s.contains(out[j]) by {
            if j == 0 {
                assert(s[0] == out[0]);
                assert(s.contains(out[0]));
            } else {
                assert(out[j] == o1[j - 1]);
                if o1[j - 1] != (k, v) {
                    assert(s1.contains(o1[j - 1]));
                    let i = choose|i: int| 0 <= i < s1.len() && s1[i] == o1[j - 1];
                    assert(s[i + 1] == o1[j - 1]);
                }
            }
        }
        assert(kmap_has(out, k)) by {
            let i = choose|i: int| 0 <= i < o1.len() && o1[i].0 == k;
            assert(out[i + 1].0 == k);
        }
        assert forall|q: usize| #[trigger] kmap_has(out, q) == (kmap_has(s, q) || q == k) by {
            if kmap_has(out, q) {
                let i = choose|i: int| 0 <= i < out.len() && out[i].0 == q;
                if i == 0 {
                    assert(s[0].0 == q);
                } else {
                    assert(o1[i - 1].0 == q);
                    assert(kmap_has(o1, q));
                    if kmap_has(s1, q) {
                        let j = choose|j: int| 0 <= j < s1.len() && s1[j].0 == q;
                        assert(s[j + 1].0 == q);
                    }
                }
            }
            if kmap_has(s, q) {
                let i = choose|i: int| 0 <= i < s.len() && s[i].0 == q;
                if i == 0 {
                    assert(out[0].0 == q);
                } else {
                    assert(s1[i - 1].0 == q);
                    assert(kmap_has(o1, q));
                    let j = choose|j: int| 0 <= j < o1.len() && o1[j].0 == q;
                    assert(out[j + 1].0 == q);
                }
            }
            if q == k {
                assert(kmap_has(out, q));
            }
        }
    } else if s[0].0 == k {
        let s1 = s.drop_first();
        assert(out == seq![(k, v)] + s1);
        assert forall|a: int, b: int| 0 <= a < b < out.len() implies (#[trigger] out[a]).0 < (
        #[trigger] out[b]).0 by {
            if a == 0 {
                assert(out[b] == s1[b - 1]);
                assert(s1[b - 1] == s[b]);
            } else {
                assert(out[a] == s[a] && out[b] == s[b]);
            }
        }
        assert forall|j: int| 0 <= j < out.len() implies #[trigger] out[j] == (k, v)
            || s.contains(out[j]) by {
            if j > 0 {
                assert(out[j] == s[j]);
                assert(s.contains(out[j]));
            }
        }
        assert(out[0].0 == k);
        assert forall|q: usize| #[trigger] kmap_has(out, q) == (kmap_has(s, q) || q == k) by {
            if kmap_has(out, q) {
                let i = choose|i: int| 0 <= i < out.len() && out[i].0 == q;
                if i == 0 {
                    assert(s[0].0 == q);
                } else {
                    assert(s[i].0 == q);
                }
            }
            if kmap_has(s, q) {
                let i = choose|i: int| 0 <= i < s.len() && s[i].0 == q;
                if i == 0 {
                    assert(out[0].0 == q);
                } else {
                    assert(out[i].0 == q);
                }
            }
        }
    } else {
        assert(out == seq![(k, v)] + s);
        assert forall|a: int, b: int| 0 <= a < b < out.len() implies (#[trigger] out[a]).0 < (
        #[trigger] out[b]).0 by {
            if a == 0 {
                assert(out[b] == s[b - 1]);
                if b > 1 {
                    assert(s[0].0 < s[b - 1].0);
                }
            } else {
                assert(out[a] == s[a - 1] && out[b] == s[b - 1]);
            }
        }
        assert forall|j: int| 0 <= j < out.len() implies #[trigger] out[j] == (k, v)
            || s.contains(out[j]) by {
            if j > 0 {
                assert(out[j] == s[j - 1]);
                assert(s.contains(out[j]));
            }
        }
        assert(out[0].0 == k);
        assert forall|q: usize| #[trigger] kmap_has(out, q) == (kmap_has(s, q) || q == k) by {
            if kmap_has(out, q) {
                let i = choose|i: int| 0 <= i < out.len() && out[i].0 == q;
                if i > 0 {
                    assert(s[i - 1].0 == q);
                }
            }
            if kmap_has(s, q) {
                let i = choose|i: int| 0 <= i < s.len() && s[i].0 == q;
                assert(out[i + 1].0 == q);
            }
        }
    }
}

/// Removing a key keeps the map sorted; every surviving entry is one of the
/// old entries, and the key is gone.
pub proof fn lemma_kmap_del_props<V>(s: Seq<(usize, V)>, k: usize)
    requires
        kmap_sorted(s),
    ensures
        kmap_sorted(kmap_del(s, k)),
        forall|j: int|
            0 <= j < kmap_del(s, k).len() ==> s.contains(#[trigger] kmap_del(s, k)[j]),
        !kmap_has(kmap_del(s, k), k),
    decreases s.len(),
{
    let out = kmap_del(s, k);
    if s.len() == 0 {
        assert(!kmap_has(out, k)) by {
            if kmap_has(out, k) {
                let i = choose|i: int| 0 <= i < out.len() && out[i].0 == k;
            }
        }
    } else if s[0].0 == k {
        let s1 = s.drop_first();
        assert(out == s1);
        assert(kmap_sorted(out)) by {
            assert(forall|i: int, j: int|
                0 <= i < j < s1.len() ==> #[trigger] s1[i] == s[i + 1] && #[trigger] s1[j] == s[j
                    + 1]);
        }
        assert forall|j: int| 0 <= j < out.len() implies s.contains(#[trigger] out[j]) by {
            assert(out[j] == s[j + 1]);
        }
        assert(!kmap_has(out, k)) by {
            if kmap_has(out, k) {
                let i = choose|i: int| 0 <= i < out.len() && out[i].0 == k;
                assert(out[i] == s[i + 1]);
                assert(s[0].0 < s[i + 1].0);
            }
        }
    } else {
        let s1 = s.drop_first();
        assert(kmap_sorted(s1)) by {
            assert(forall|i: int, j: int|
                0 <= i < j < s1.len() ==> #[trigger] s1[i] == s[i + 1] && #[trigger] s1[j] == s[j
                    + 1]);
        }
        lemma_kmap_del_props(s1, k);
        let o1 = kmap_del(s1, k);
        assert(out == seq![s[0]] + o1);
        assert forall|a: int, b: int| 0 <= a < b < out.len() implies (#[trigger] out[a]).0 < (
        #[trigger] out[b]).0 by {
            if a == 0 {
                assert(out[b] == o1[b - 1]);
                assert(s1.contains(o1[b - 1]));
                let i = choose|i: int| 0 <= i < s1.len() && s1[i] == o1[b - 1];
                assert(s1[i] == s[i + 1]);
            } else {
                assert(out[a] == o1[a - 1] && out[b] == o1[b - 1]);
            }
        }
        assert forall|j: int| 0 <= j < out.len() implies s.contains(#[trigger] out[j]) by {
            if j == 0 {
                assert(s[0] == out[0]);
            } else {
                assert(out[j] == o1[j - 1]);
                assert(s1.contains(o1[j - 1]));
                let i = choose|i: int| 0 <= i < s1.len() && s1[i] == o1[j - 1];
                assert(s[i + 1] == o1[j - 1]);
            }
        }
        assert(!kmap_has(out, k)) by {
            if kmap_has(out, k) {
                let i = choose|i: int| 0 <= i < out.len() && out[i].0 == k;
                if i > 0 {
                    assert(o1[i - 1].0 == k);
                    assert(kmap_has(o1, k));
                }
            }
        }
    }
}

/// Looking up the key just bound gives the new value.
pub proof fn lemma_kmap_put_get<V>(s: Seq<(usize, V)>, k: usize, v: V)
    requires
        kmap_sorted(s),
    ensures
        kmap_get(kmap_put(s, k, v), k) == Some(v),
    decreases s.len(),
{
    let out = kmap_put(s, k, v);
    if s.len() == 0 {
    } else if s[0].0 < k {
        let s1 = s.drop_first();
        assert(kmap_sorted(s1)) by {
            assert(forall|i: int, j: int|
                0 <= i < j < s1.len() ==> #[trigger] s1[i] == s[i + 1] && #[trigger] s1[j] == s[j
                    + 1]);
        }
        lemma_kmap_put_get(s1, k, v);
        assert(out == seq![s[0]] + kmap_put(s1, k, v));
        assert(out.drop_first() =~= kmap_put(s1, k, v));
    } else if s[0].0 == k {
        assert(out[0] == (k, v));
    } else {
        assert(out[0] == (k, v));
    }
}

proof fn lemma_kmap_get_skip<V>(s: Seq<(usize, V)>, k: usize, i: int)
    requires
        0 <= i <= s.len(),
        forall|j: int| 0 <= j < i ==> (#[trigger] s[j]).0 != k,
    ensures
        kmap_get(s, k) == kmap_get(s.skip(i), k),
    decreases i,
{
    if i > 0 {
        let s1 = s.drop_first();
        assert(forall|j: int| 0 <= j < i - 1 ==> (#[trigger] s1[j]).0 != k) by {
            assert(forall|j: int| 0 <= j < i - 1 ==> #[trigger] s1[j] == s[j + 1]);
        }
        lemma_kmap_get_skip(s1, k, i - 1);
        assert(s1.skip(i - 1) =~= s.skip(i));
    } else {
        assert(s.skip(0) =~= s);
    }
}

proof fn lemma_kmap_put_unfold<V>(s: Seq<(usize, V)>, k: usize, v: V, i: int)
    requires
        kmap_sorted(s),
        0 <= i <= s.len(),
        forall|j: int| 0 <= j < i ==> (#[trigger] s[j]).0 < k,
        i < s.len() ==> s[i].0 >= k,
    ensures
        kmap_put(s, k, v) == if i < s.len() && s[i].0 == k {
            s.update(i, (k, v))
        } else {
            s.insert(i, (k, v))
        },
    decreases i,
{
    if i == 0 {
        if s.len() == 0 {
            assert(kmap_put(s, k, v) =~= s.insert(0, (k, v)));
        } else if s[0].0 == k {
            assert(kmap_put(s, k, v) =~= s.update(0, (k, v)));
        } else {
            assert(kmap_put(s, k, v) =~= s.insert(0, (k, v)));
        }
    } else {
        let s1 = s.drop_first();
        assert(kmap_sorted(s1)) by {
            assert(forall|a: int, b: int|
                0 <= a < b < s1.len() ==> #[trigger] s1[a] == s[a + 1] && #[trigger] s1[b] == s[b
                    + 1]);
        }
        assert(forall|j: int| 0 <= j < i - 1 ==> (#[trigger] s1[j]).0 < k) by {
            assert(forall|j: int| 0 <= j < i - 1 ==> #[trigger] s1[j] == s[j + 1]);
        }
        assert(i - 1 < s1.len() ==> s1[i - 1].0 >= k);
        lemma_kmap_put_unfold(s1, k, v, i - 1);
        assert(s[0].0 < k);
        assert(kmap_put(s, k, v) == seq![s[0]] + kmap_put(s1, k, v));
        if i < s.len() && s[i].0 == k {
            assert(s1[i - 1].0 == k);
            assert(seq![s[0]] + s1.update(i - 1, (k, v)) =~= s.update(i, (k, v)));
        } else {
            assert(seq![s[0]] + s1.insert(i - 1, (k, v)) =~= s.insert(i, (k, v)));
        }
    }
}

proof fn lemma_kmap_del_unfold<V>(s: Seq<(usize, V)>, k: usize, i: int)
    requires
        0 <= i <= s.len(),
        forall|j: int| 0 <= j < i ==> (#[trigger] s[j]).0 != k,
        i < s.len() ==> s[i].0 == k,
    ensures
        kmap_del(s, k) == if i < s.len() {
            s.remove(i)
        } else {
            s
        },
    decreases i,
{
    if i == 0 {
        if s.len() > 0 {
            assert(kmap_del(s, k) =~= s.remove(0));
        }
    } else {
        let s1 = s.drop_first();
        assert(forall|j: int| 0 <= j < i - 1 ==> (#[trigger] s1[j]).0 != k) by {
            assert(forall|j: int| 0 <= j < i - 1 ==> #[trigger] s1[j] == s[j + 1]);
        }
        assert(i - 1 < s1.len() ==> s1[i - 1].0 == k);
        lemma_kmap_del_unfold(s1, k, i - 1);
        assert(s[0].0 != k);
        assert(kmap_del(s, k) == seq![s[0]] + kmap_del(s1, k));
        if i < s.len() {
            assert(seq![s[0]] + s1.remove(i - 1) =~= s.remove(i));
        } else {
            assert(seq![s[0]] + s1 =~= s);
        }
    }
}

/// Look a key up in a key-sorted vector of pairs.
pub fn kv_get<V: DeepView>(m: &Vec<(usize, V)>, k: usize) -> (r: Option<&V>)
    ensures
        match r {
            Some(n) => kmap_get(m.deep_view(), k) == Some(n.deep_view()),
            None => kmap_get(m.deep_view(), k) is None,
        },
{
    let ghost s = m.deep_view();
    let mut i: usize = 0;
    while i < m.len()
        invariant
            s == m.deep_view(),
            i <= m@.len() == s.len(),
            forall|j: int| 0 <= j < i ==> (#[trigger] s[j]).0 != k,
        decreases m.len() - i,
    {
        proof {
            assert(s[i as int] == m@[i as int].deep_view());
            assert(s[i as int].0 == m@[i as int].0);
        }
        if m[i].0 == k {
            proof {
                lemma_kmap_get_skip(s, k, i as int);
                assert(kmap_get(s.skip(i as int), k) == Some(s[i as int].1));
                assert(s[i as int].1 == m@[i as int].1.deep_view());
            }
            return Some(&m[i].1);
        }
        i = i + 1;
    }
    proof {
        lemma_kmap_get_skip(s, k, i as int);
        assert(s.skip(s.len() as int) =~= Seq::<(usize, V::V)>::empty());
    }
    None
}

/// Bind a key in a key-sorted vector of pairs, keeping it sorted.
pub fn kv_put<V: crate::resources::DeepClone>(m: &mut Vec<(usize, V)>, k: usize, v: V)
    requires
        kmap_sorted(old(m).deep_view()),
    ensures
        final(m).deep_view() == kmap_put(old(m).deep_view(), k, v.deep_view()),
{
    let ghost s0 = old(m).deep_view();
    let mut i: usize = 0;
    while i < m.len() && m[i].0 < k
        invariant
            s0 == old(m).deep_view(),
            m.deep_view() == s0,
            i <= m@.len() == s0.len(),
            forall|j: int| 0 <= j < i ==> (#[trigger] s0[j]).0 < k,
        decreases m.len() - i,
    {
        proof {
            assert(s0[i as int] == m@[i as int].deep_view());
            assert(s0[i as int].0 == m@[i as int].0);
        }
        i = i + 1;
    }
    proof {
        if i < m.len() {
            assert(s0[i as int] == m@[i as int].deep_view());
        }
        lemma_kmap_put_unfold(s0, k, v.deep_view(), i as int);
    }
    let ghost kv = (k, v.deep_view());
    if i < m.len() && m[i].0 == k {
        let ghost pre = m@;
        m.set(i, (k, v));
        proof {
            assert forall|j: int| 0 <= j < m.deep_view().len() implies m.deep_view()[j]
                == s0.update(i as int, kv)[j] by {
                assert(m.deep_view()[j] == m@[j].deep_view());
                if j != i {
                    assert(m@[j] == pre[j]);
                    assert(s0[j] == pre[j].deep_view());
                }
            }
            assert(m.deep_view() =~= s0.update(i as int, kv));
        }
    } else {
        let ghost pre = m@;
        m.insert(i, (k, v));
        proof {
            assert forall|j: int| 0 <= j < m.deep_view().len() implies m.deep_view()[j]
                == s0.insert(i as int, kv)[j] by {
                assert(m.deep_view()[j] == m@[j].deep_view());
                if j < i {
                    assert(m@[j] == pre[j]);
                    assert(s0[j] == pre[j].deep_view());
                } else if j > i {
                    assert(m@[j] == pre[j - 1]);
                    assert(s0[j - 1] == pre[j - 1].deep_view());
                }
            }
            assert(m.deep_view() =~= s0.insert(i as int, kv));
        }
    }
}

/// Remove a key's binding from a vector of pairs, if present.
pub fn kv_del<V: DeepView>(m: &mut Vec<(usize, V)>, k: usize)
    ensures
        final(m).deep_view() == kmap_del(old(m).deep_view(), k),
{
    let ghost s0 = old(m).deep_view();
    let mut i: usize = 0;
    while i < m.len()
        invariant
            s0 == old(m).deep_view(),
            m.deep_view() == s0,
            i <= m@.len() == s0.len(),
            forall|j: int| 0 <= j < i ==> (#[trigger] s0[j]).0 != k,
        decreases m.len() - i,
    {
        proof {
            assert(s0[i as int] == m@[i as int].deep_view());
            assert(s0[i as int].0 == m@[i as int].0);
        }
        if m[i].0 == k {
            proof {
                lemma_kmap_del_unfold(s0, k, i as int);
            }
            let ghost pre = m@;
            let _ = m.remove(i);
            proof {
                assert forall|j: int| 0 <= j < m.deep_view().len() implies m.deep_view()[j]
                    == s0.remove(i as int)[j] by {
                    assert(m.deep_view()[j] == m@[j].deep_view());
                    if j < i {
                        assert(m@[j] == pre[j]);
                        assert(s0[j] == pre[j].deep_view());
                    } else {
                        assert(m@[j] == pre[j + 1]);
                        assert(s0[j + 1] == pre[j + 1].deep_view());
                    }
                }
                assert(m.deep_view() =~= s0.remove(i as int));
            }
            return ;
        }
        i = i + 1;
    }
    proof {
        lemma_kmap_del_unfold(s0, k, i as int);
    }
}

proof fn lemma_uset_put_unfold(s: Seq<usize>, k: usize, i: int)
    requires
        uset_sorted(s),
        0 <= i <= s.len(),
        forall|j: int| 0 <= j < i ==> #[trigger] s[j] < k,
        i < s.len() ==> s[i] >= k,
    ensures
        uset_put(s, k) == if i < s.len() && s[i] == k {
            s
        } else {
            s.insert(i, k)
        },
    decreases i,
{
    if i == 0 {
        if s.len() == 0 {
            assert(uset_put(s, k) =~= s.insert(0, k));
        } else if s[0] == k {
        } else {
            assert(uset_put(s, k) =~= s.insert(0, k));
        }
    } else {
        let s1 = s.drop_first();
        assert(uset_sorted(s1)) by {
            assert(forall|a: int, b: int|
                0 <= a < b < s1.len() ==> #[trigger] s1[a] == s[a + 1] && #[trigger] s1[b] == s[b
                    + 1]);
        }
        assert(forall|j: int| 0 <= j < i - 1 ==> #[trigger] s1[j] < k) by {
            assert(forall|j: int| 0 <= j < i - 1 ==> #[trigger] s1[j] == s[j + 1]);
        }
        assert(i - 1 < s1.len() ==> s1[i - 1] >= k);
        lemma_uset_put_unfold(s1, k, i - 1);
        assert(s[0] < k);
        assert(uset_put(s, k) == seq![s[0]] + uset_put(s1, k));
        if i < s.len() && s[i] == k {
            assert(s1[i - 1] == k);
            assert(seq![s[0]] + s1 =~= s);
        } else {
            assert(seq![s[0]] + s1.insert(i - 1, k) =~= s.insert(i, k));
        }
    }
}

/// Adding to a sorted plain set keeps it sorted and adds exactly this key.
pub proof fn lemma_uset_put(s: Seq<usize>, k: usize)
    requires
        uset_sorted(s),
    ensures
        uset_sorted(uset_put(s, k)),
        forall|q: usize| #[trigger] uset_has(uset_put(s, k), q) == (uset_has(s, q) || q == k),
    decreases s.len(),
{
    let out = uset_put(s, k);
    if s.len() == 0 {
        assert(out == seq![k]);
        assert(out[0] == k);
        assert forall|q: usize| #[trigger] uset_has(out, q) == (uset_has(s, q) || q == k) by {
            if uset_has(out, q) {
                let i = choose|i: int| 0 <= i < out.len() && out[i] == q;
                assert(out[i] == k);
            }
        }
    } else if s[0] < k {
        let s1 = s.drop_first();
        assert(uset_sorted(s1)) by {
            assert(forall|a: int, b: int|
                0 <= a < b < s1.len() ==> #[trigger] s1[a] == s[a + 1] && #[trigger] s1[b] == s[b
                    + 1]);
        }
        lemma_uset_put(s1, k);
        let o1 = uset_put(s1, k);
        assert(out == seq![s[0]] + o1);
        assert forall|a: int, b: int| 0 <= a < b < out.len() implies #[trigger] out[a]
            < #[trigger] out[b] by {
            if a == 0 {
                assert(out[b] == o1[b - 1]);
                assert(uset_has(o1, o1[b - 1]));
                if uset_has(s1, o1[b - 1]) {
                    let i = choose|i: int| 0 <= i < s1.len() && s1[i] == o1[b - 1];
                    assert(s1[i] == s[i + 1]);
                } else {
                    assert(o1[b - 1] == k);
                }
            } else {
                assert(out[a] == o1[a - 1] && out[b] == o1[b - 1]);
            }
        }
        assert forall|q: usize| #[trigger] uset_has(out, q) == (uset_has(s, q) || q == k) by {
            if uset_has(out, q) {
                let i = choose|i: int| 0 <= i < out.len() && out[i] == q;
                if i == 0 {
                    assert(s[0] == q);
                } else {
                    assert(o1[i - 1] == q);
                    assert(uset_has(o1, q));
                    if uset_has(s1, q) {
                        let j = choose|j: int| 0 <= j < s1.len() && s1[j] == q;
                        assert(s[j + 1] == q);
                    }
                }
            }
            if uset_has(s, q) {
                let i = choose|i: int| 0 <= i < s.len() && s[i] == q;
                if i == 0 {
                    assert(out[0] == q);
                } else {
                    assert(s1[i - 1] == q);
                    assert(uset_has(o1, q));
                    let j = choose|j: int| 0 <= j < o1.len() && o1[j] == q;
                    assert(out[j + 1] == q);
                }
            }
            if q == k {
                assert(uset_has(o1, k));
                let j = choose|j: int| 0 <= j < o1.len() && o1[j] == k;
                assert(out[j + 1] == k);
            }
        }
    } else if s[0] == k {
        assert(out == s);
        assert(out[0] == k);
        assert forall|q: usize| #[trigger] uset_has(out, q) == (uset_has(s, q) || q == k) by {
            if q == k {
                assert(uset_has(out, k)) by {
                    assert(out[0] == k);
                }
            }
        }
    } else {
        assert(out == seq![k] + s);
        assert forall|a: int, b: int| 0 <= a < b < out.len() implies #[trigger] out[a]
            < #[trigger] out[b] by {
            if a == 0 {
                assert(out[b] == s[b - 1]);
                if b > 1 {
                    assert(s[0] < s[b - 1]);
                }
            } else {
                assert(out[a] == s[a - 1] && out[b] == s[b - 1]);
            }
        }
        assert(out[0] == k);
        assert forall|q: usize| #[trigger] uset_has(out, q) == (uset_has(s, q) || q == k) by {
            if uset_has(out, q) {
                let i = choose|i: int| 0 <= i < out.len() && out[i] == q;
                if i > 0 {
                    assert(s[i - 1] == q);
                }
            }
            if uset_has(s, q) {
                let i = choose|i: int| 0 <= i < s.len() && s[i] == q;
                assert(out[i + 1] == q);
            }
        }
    }
}

/// Add a key to a sorted plain set.
pub fn uset_insert(v: &mut Vec<usize>, k: usize)
    requires
        uset_sorted(old(v)@),
    ensures
        final(v)@ == uset_put(old(v)@, k),
        uset_sorted(final(v)@),
{
    proof {
        lemma_uset_put(old(v)@, k);
    }
    let mut i: usize = 0;
    while i < v.len() && v[i] < k
        invariant
            v@ == old(v)@,
            i <= v@.len(),
            forall|j: int| 0 <= j < i ==> #[trigger] v@[j] < k,
        decreases v.len() - i,
    {
        i = i + 1;
    }
    proof {
        lemma_uset_put_unfold(old(v)@, k, i as int);
    }
    if i < v.len() && v[i] == k {
        return ;
    }
    v.insert(i, k);
}

/// Membership in a sorted plain set.
pub fn uset_contains(v: &Vec<usize>, k: usize) -> (r: bool)
    ensures
        r == uset_has(v@, k),
{
    let mut i: usize = 0;
    while i < v.len()
        invariant
            i <= v@.len(),
            forall|j: int| 0 <= j < i ==> #[trigger] v@[j] != k,
        decreases v.len() - i,
    {
        if v[i] == k {
            return true;
        }
        i = i + 1;
    }
    false
}

/// Duplicate a vector of plain keys.
pub fn clone_usize_vec(v: &Vec<usize>) -> (r: Vec<usize>)
    ensures
        r@ == v@,
{
    let mut r: Vec<usize> = Vec::new();
    let mut i: usize = 0;
    while i < v.len()
        invariant
            i <= v@.len(),
            r@ == v@.take(i as int),
        decreases v.len() - i,
    {
        r.push(v[i]);
        proof {
            assert(r@ =~= v@.take(i + 1));
        }
        i = i + 1;
    }
    proof {
        assert(v@.take(v@.len() as int) =~= v@);
    }
    r
}

/// Equality of two vectors of plain keys.
pub fn usize_vec_eq(a: &Vec<usize>, b: &Vec<usize>) -> (r: bool)
    ensures
        r == (a@ == b@),
{
    if a.len() != b.len() {
        return false;
    }
    let mut i: usize = 0;
    while i < a.len()
        invariant
            i <= a@.len() == b@.len(),
            forall|j: int| 0 <= j < i ==> a@[j] == b@[j],
        decreases a.len() - i,
    {
        if a[i] != b[i] {
            return false;
        }
        i = i + 1;
    }
    proof {
        assert(a@ =~= b@);
    }
    true
}

} // verus!

