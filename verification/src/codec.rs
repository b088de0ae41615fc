//! The backing-file format: a UTF-8, line-oriented key/value document.
//!
//! Every number (a field length, the permission count, the expiration time)
//! is written as a fixed run of twenty decimal digits, so the document is
//! unambiguous without any escaping: a string field carries its own length
//! and then its characters verbatim.
//!
//! ```text
//! token:<len>:<chars>
//! refresh_token:<len>:<chars>
//! user_id:<len>:<chars>
//! username:<len>:<chars>
//! permissions:<count>
//! p:<len>:<chars>          (one line per permission tag)
//! expires_at:<seconds>
//! ```
//!
//! `encode_spec` pins the document down character by character;
//! `encode_token_data` is proved to produce exactly that sequence, and
//! `decode_token_data` accepts a string exactly when it is such a document.

use vstd::prelude::*;
use vstd::string::*;

use crate::record::TokenData;

verus! {

pub const NUM_WIDTH: usize = 20;

/// The decimal digit character for a value below ten.
pub open spec fn digit_char(d: int) -> char {
    if d == 0 {
        '0'
    } else if d == 1 {
        '1'
    } else if d == 2 {
        '2'
    } else if d == 3 {
        '3'
    } else if d == 4 {
        '4'
    } else if d == 5 {
        '5'
    } else if d == 6 {
        '6'
    } else if d == 7 {
        '7'
    } else if d == 8 {
        '8'
    } else {
        '9'
    }
}

/// The value of a decimal digit character; ten marks a non-digit.
pub open spec fn char_digit(c: char) -> nat {
    if c == '0' {
        0
    } else if c == '1' {
        1
    } else if c == '2' {
        2
    } else if c == '3' {
        3
    } else if c == '4' {
        4
    } else if c == '5' {
        5
    } else if c == '6' {
        6
    } else if c == '7' {
        7
    } else if c == '8' {
        8
    } else if c == '9' {
        9
    } else {
        10
    }
}

pub open spec fn is_digit_char(c: char) -> bool {
    char_digit(c) < 10
}

/// `n` written as exactly `w` decimal digits, most significant first
/// (leading zeros pad the run).
pub open spec fn decfix(n: nat, w: nat) -> Seq<char>
    decreases w,
{
    if w == 0 {
        Seq::<char>::empty()
    } else {
        decfix(n / 10, (w - 1) as nat).push(digit_char((n % 10) as int))
    }
}

/// The value of a run of decimal digits, most significant first.
pub open spec fn digits_val(s: Seq<char>) -> nat
    decreases s.len(),
{
    if s.len() == 0 {
        0
    } else {
        digits_val(s.drop_last()) * 10 + char_digit(s.last())
    }
}

pub open spec fn pow10(w: nat) -> nat
    decreases w,
{
    if w == 0 {
        1
    } else {
        10 * pow10((w - 1) as nat)
    }
}

proof fn lemma_digit_char_roundtrip(d: int)
    requires
        0 <= d < 10,
    ensures
        char_digit(digit_char(d)) == d,
        is_digit_char(digit_char(d)),
{
}

/// Every character of a fixed-width decimal run is a digit.
proof fn lemma_decfix_digits(n: nat, w: nat)
    ensures
        decfix(n, w).len() == w,
        forall|i: int| 0 <= i < w ==> is_digit_char(#[trigger] decfix(n, w)[i]),
    decreases w,
{
    if w > 0 {
        lemma_decfix_digits(n / 10, (w - 1) as nat);
        lemma_digit_char_roundtrip((n % 10) as int);
    }
}

/// Reading back a fixed-width decimal run yields the value written, as long
/// as the value fit the width.
proof fn lemma_decfix_val(n: nat, w: nat)
    requires
        n < pow10(w),
    ensures
        digits_val(decfix(n, w)) == n,
    decreases w,
{
    if w == 0 {
    } else {
        assert(n / 10 < pow10((w - 1) as nat)) by {
            vstd::arithmetic::div_mod::lemma_div_by_multiple_is_strongly_ordered(
                n as int, pow10(w) as int, pow10((w - 1) as nat) as int, 10);
        }
        lemma_decfix_val(n / 10, (w - 1) as nat);
        let s = decfix(n, w);
        assert(s.drop_last() =~= decfix(n / 10, (w - 1) as nat));
        lemma_digit_char_roundtrip((n % 10) as int);
        assert(digits_val(s) == (n / 10) * 10 + n % 10);
        assert((n / 10) * 10 + n % 10 == n) by {
            vstd::arithmetic::div_mod::lemma_fundamental_div_mod(n as int, 10);
        }
    }
}

/// A run of `w` digits is the canonical fixed-width encoding of its value.
proof fn lemma_digits_canonical(s: Seq<char>, w: nat)
    requires
        s.len() == w,
        forall|i: int| 0 <= i < w ==> is_digit_char(#[trigger] s[i]),
    ensures
        digits_val(s) < pow10(w),
        decfix(digits_val(s), w) =~= s,
    decreases w,
{
    if w == 0 {
        assert(s =~= Seq::<char>::empty());
    } else {
        let s0 = s.drop_last();
        lemma_digits_canonical(s0, (w - 1) as nat);
        let d = char_digit(s.last());
        assert(d < 10);
        let v = digits_val(s);
        assert(v == digits_val(s0) * 10 + d);
        assert(v < pow10(w)) by {
            assert(digits_val(s0) <= pow10((w - 1) as nat) - 1);
            assert(digits_val(s0) * 10 <= (pow10((w - 1) as nat) - 1) * 10) by (nonlinear_arith)
                requires digits_val(s0) <= pow10((w - 1) as nat) - 1;
        }
        assert(v % 10 == d && v / 10 == digits_val(s0)) by {
            vstd::arithmetic::div_mod::lemma_fundamental_div_mod_converse(
                v as int, 10, digits_val(s0) as int, d as int);
        }
        assert(digit_char((v % 10) as int) == s.last()) by {
            lemma_char_digit_roundtrip(s.last());
        }
        assert(decfix(v, w) =~= s);
    }
}

proof fn lemma_char_digit_roundtrip(c: char)
    requires
        is_digit_char(c),
    ensures
        digit_char(char_digit(c) as int) == c,
{
}

/// Values below ten to the twentieth fill the fixed width; every `u64` does.
proof fn lemma_u64_below_pow20(n: u64)
    ensures
        n < pow10(NUM_WIDTH as nat),
{
    assert(pow10(20) == 0x56bc75e2d63100000) by {
        reveal_with_fuel(pow10, 21);
    }
}

/// `decfix` at the fixed width tells apart any two values small enough to
/// stand in a document (field lengths are bounded by the document's length).
proof fn lemma_decfix_injective_nat(a: nat, b: nat)
    requires
        a < pow10(NUM_WIDTH as nat),
        b < pow10(NUM_WIDTH as nat),
        decfix(a, NUM_WIDTH as nat) == decfix(b, NUM_WIDTH as nat),
    ensures
        a == b,
{
    lemma_decfix_val(a, NUM_WIDTH as nat);
    lemma_decfix_val(b, NUM_WIDTH as nat);
}

// ------------------------------------------------------------------
// The document, character by character
// ------------------------------------------------------------------

/// One string field: the key (with its trailing colon), the value's length
/// as a fixed-width decimal run, a colon, the value's characters verbatim,
/// and a newline.
pub open spec fn field_enc(k: Seq<char>, w: Seq<char>) -> Seq<char> {
    k + decfix(w.len(), NUM_WIDTH as nat) + seq![':'] + w + seq!['\n']
}

/// One numeric field: the key, the value as a fixed-width decimal run, and a
/// newline.
pub open spec fn num_field_enc(k: Seq<char>, v: nat) -> Seq<char> {
    k + decfix(v, NUM_WIDTH as nat) + seq!['\n']
}

/// The permission tags, one `p:` field per tag, in order.
pub open spec fn perms_enc(ws: Seq<Seq<char>>) -> Seq<char>
    decreases ws.len(),
{
    if ws.len() == 0 {
        Seq::<char>::empty()
    } else {
        perms_enc(ws.drop_last()) + field_enc("p:"@, ws.last())
    }
}

/// The whole backing-file document for a credential record.
pub open spec fn encode_spec(t: TokenData) -> Seq<char> {
    field_enc("token:"@, t.token@) + field_enc("refresh_token:"@, t.refresh_token@) + field_enc(
        "user_id:"@,
        t.user_id@,
    ) + field_enc("username:"@, t.username@) + num_field_enc(
        "permissions:"@,
        t.permissions.deep_view().len(),
    ) + perms_enc(t.permissions.deep_view()) + num_field_enc("expires_at:"@, t.expires_at as nat)
}

// ------------------------------------------------------------------
// Encoding
// ------------------------------------------------------------------

/// The one-character string for a decimal digit value.
fn digit_str(d: u64) -> (r: &'static str)
    requires
        d < 10,
    ensures
        r@ == seq![digit_char(d as int)],
{
    proof {
        reveal_strlit("0");
        reveal_strlit("1");
        reveal_strlit("2");
        reveal_strlit("3");
        reveal_strlit("4");
        reveal_strlit("5");
        reveal_strlit("6");
        reveal_strlit("7");
        reveal_strlit("8");
        reveal_strlit("9");
    }
    let r = if d == 0 {
        "0"
    } else if d == 1 {
        "1"
    } else if d == 2 {
        "2"
    } else if d == 3 {
        "3"
    } else if d == 4 {
        "4"
    } else if d == 5 {
        "5"
    } else if d == 6 {
        "6"
    } else if d == 7 {
        "7"
    } else if d == 8 {
        "8"
    } else {
        "9"
    };
    proof {
        assert(r@ =~= seq![digit_char(d as int)]);
    }
    r
}

/// Appends `n` as exactly `width` decimal digits, most significant first.
fn push_decfix(out: &mut String, n: u64, width: usize)
    ensures
        final(out)@ == old(out)@ + decfix(n as nat, width as nat),
    decreases width,
{
    if width > 0 {
        push_decfix(out, n / 10, width - 1);
        out.append(digit_str(n % 10));
        proof {
            assert((n as nat) / 10 == (n / 10) as nat);
            assert((n as nat) % 10 == (n % 10) as nat);
            assert(out@ =~= old(out)@ + decfix(n as nat, width as nat));
        }
    } else {
        proof {
            assert(out@ =~= old(out)@ + decfix(n as nat, 0));
        }
    }
}

/// Appends one string field.
fn push_str_field(out: &mut String, key: &str, val: &str)
    ensures
        final(out)@ == old(out)@ + field_enc(key@, val@),
{
    out.append(key);
    let l = val.unicode_len();
    push_decfix(out, l as u64, NUM_WIDTH);
    out.append(":");
    out.append(val);
    out.append("\n");
    proof {
        reveal_strlit(":");
        reveal_strlit("\n");
        assert(out@ =~= old(out)@ + field_enc(key@, val@));
    }
}

/// Appends one numeric field.
fn push_num_field(out: &mut String, key: &str, v: u64)
    ensures
        final(out)@ == old(out)@ + num_field_enc(key@, v as nat),
{
    out.append(key);
    push_decfix(out, v, NUM_WIDTH);
    out.append("\n");
    proof {
        reveal_strlit("\n");
        assert(out@ =~= old(out)@ + num_field_enc(key@, v as nat));
    }
}

// ------------------------------------------------------------------
// Decoding
// ------------------------------------------------------------------

/// A fixed-width decimal run for `v` stands at position `i`.
pub open spec fn has_decfix_at(s: Seq<char>, i: int, v: nat) -> bool {
    &&& 0 <= i
    &&& i + NUM_WIDTH as int <= s.len()
    &&& s.subrange(i, i + NUM_WIDTH as int) == decfix(v, NUM_WIDTH as nat)
}

/// A whole string field for key `k` and value `w` stands at position `i`.
pub open spec fn has_field_at(s: Seq<char>, i: int, k: Seq<char>, w: Seq<char>) -> bool {
    &&& 0 <= i
    &&& i + field_enc(k, w).len() <= s.len()
    &&& s.subrange(i, i + field_enc(k, w).len() as int) == field_enc(k, w)
}

/// A whole numeric field for key `k` and value `v` stands at position `i`.
pub open spec fn has_num_field_at(s: Seq<char>, i: int, k: Seq<char>, v: nat) -> bool {
    &&& 0 <= i
    &&& i + num_field_enc(k, v).len() <= s.len()
    &&& s.subrange(i, i + num_field_enc(k, v).len() as int) == num_field_enc(k, v)
}

broadcast proof fn lemma_decfix_len(n: nat, w: nat)
    ensures
        (#[trigger] decfix(n, w)).len() == w,
    decreases w,
{
    if w > 0 {
        lemma_decfix_len(n / 10, (w - 1) as nat);
    }
}

/// The value of a digit run never shrinks when digits are appended.
proof fn lemma_val_prefix_le(s: Seq<char>, j: int)
    requires
        0 <= j <= s.len(),
    ensures
        digits_val(s.take(j)) <= digits_val(s),
    decreases s.len() - j,
{
    if j == s.len() {
        assert(s.take(j) =~= s);
    } else {
        lemma_val_prefix_le(s, j + 1);
        assert(s.take(j + 1).drop_last() =~= s.take(j));
        assert(digits_val(s.take(j + 1)) == digits_val(s.take(j)) * 10 + char_digit(
            s.take(j + 1).last(),
        ));
    }
}

/// Splits a known concatenation inside `s` into its two parts.
proof fn lemma_concat_parts(s: Seq<char>, i: int, a: Seq<char>, b: Seq<char>)
    requires
        0 <= i,
        i + a.len() + b.len() <= s.len(),
        s.subrange(i, i + a.len() + b.len()) == a + b,
    ensures
        s.subrange(i, i + a.len()) == a,
        s.subrange(i + a.len(), i + a.len() + b.len()) == b,
{
    assert forall|x: int| 0 <= x < a.len() implies s[i + x] == a[x] by {
        assert(s.subrange(i, i + a.len() + b.len())[x] == s[i + x]);
        assert((a + b)[x] == a[x]);
    }
    assert forall|y: int| 0 <= y < b.len() implies s[i + a.len() + y] == b[y] by {
        assert(s.subrange(i, i + a.len() + b.len())[a.len() + y] == s[i + a.len() + y]);
        assert((a + b)[a.len() + y] == b[y]);
    }
    assert(s.subrange(i, i + a.len()) =~= a);
    assert(s.subrange(i + a.len(), i + a.len() + b.len()) =~= b);
}

/// Reads the pieces of a string field out of the document.
proof fn lemma_field_parts(s: Seq<char>, i: int, k: Seq<char>, w: Seq<char>)
    requires
        has_field_at(s, i, k, w),
    ensures
        i + k.len() + NUM_WIDTH as int + 2 + w.len() <= s.len(),
        s.subrange(i, i + k.len()) == k,
        has_decfix_at(s, i + k.len(), w.len()),
        s[i + k.len() + NUM_WIDTH as int] == ':',
        s.subrange(
            i + k.len() + NUM_WIDTH as int + 1,
            i + k.len() + NUM_WIDTH as int + 1 + w.len(),
        ) == w,
        s[i + k.len() + NUM_WIDTH as int + 1 + w.len()] == '\n',
{
    broadcast use lemma_decfix_len;

    let f = field_enc(k, w);
    let a = k.len() as int;
    let d = decfix(w.len(), NUM_WIDTH as nat);
    assert forall|x: int| 0 <= x < a implies s[i + x] == k[x] by {
        assert(s.subrange(i, i + f.len() as int)[x] == s[i + x]);
        assert(f[x] == k[x]);
    }
    assert forall|y: int| 0 <= y < NUM_WIDTH as int implies s[i + a + y] == d[y] by {
        assert(s.subrange(i, i + f.len() as int)[a + y] == s[i + a + y]);
        assert(f[a + y] == d[y]);
    }
    assert forall|y: int| 0 <= y < w.len() implies s[i + a + NUM_WIDTH as int + 1 + y] == w[y] by {
        assert(s.subrange(i, i + f.len() as int)[a + NUM_WIDTH as int + 1 + y] == s[i + a
            + NUM_WIDTH as int + 1 + y]);
        assert(f[a + NUM_WIDTH as int + 1 + y] == w[y]);
    }
    assert(s.subrange(i, i + f.len() as int)[a + NUM_WIDTH as int] == s[i + a + NUM_WIDTH as int]);
    assert(f[a + NUM_WIDTH as int] == ':');
    assert(s.subrange(i, i + f.len() as int)[a + NUM_WIDTH as int + 1 + w.len()] == s[i + a
        + NUM_WIDTH as int + 1 + w.len()]);
    assert(f[a + NUM_WIDTH as int + 1 + w.len()] == '\n');
    assert(s.subrange(i, i + a) =~= k);
    assert(s.subrange(i + a, i + a + NUM_WIDTH as int) =~= d);
    assert(s.subrange(i + a + NUM_WIDTH as int + 1, i + a + NUM_WIDTH as int + 1 + w.len())
        =~= w);
}

/// Assembles a string field from its pieces.
proof fn lemma_field_compose(s: Seq<char>, i: int, k: Seq<char>, w: Seq<char>)
    requires
        0 <= i,
        i + k.len() + NUM_WIDTH as int + 2 + w.len() <= s.len(),
        s.subrange(i, i + k.len()) == k,
        has_decfix_at(s, i + k.len(), w.len()),
        s[i + k.len() + NUM_WIDTH as int] == ':',
        s.subrange(
            i + k.len() + NUM_WIDTH as int + 1,
            i + k.len() + NUM_WIDTH as int + 1 + w.len(),
        ) == w,
        s[i + k.len() + NUM_WIDTH as int + 1 + w.len()] == '\n',
    ensures
        has_field_at(s, i, k, w),
{
    broadcast use lemma_decfix_len;

    let f = field_enc(k, w);
    let a = k.len() as int;
    let d = decfix(w.len(), NUM_WIDTH as nat);
    assert forall|x: int| 0 <= x < f.len() implies s[i + x] == f[x] by {
        if x < a {
            assert(s.subrange(i, i + a)[x] == k[x]);
        } else if x < a + NUM_WIDTH as int {
            assert(s.subrange(i + a, i + a + NUM_WIDTH as int)[x - a] == d[x - a]);
        } else if x == a + NUM_WIDTH as int {
        } else if x < a + NUM_WIDTH as int + 1 + w.len() {
            assert(s.subrange(i + a + NUM_WIDTH as int + 1, i + a + NUM_WIDTH as int + 1 + w.len())[
                x - (a + NUM_WIDTH as int + 1)] == w[x - (a + NUM_WIDTH as int + 1)]);
        } else {
        }
    }
    assert(s.subrange(i, i + f.len() as int) =~= f);
}

/// Reads the pieces of a numeric field out of the document.
proof fn lemma_num_field_parts(s: Seq<char>, i: int, k: Seq<char>, v: nat)
    requires
        has_num_field_at(s, i, k, v),
    ensures
        i + k.len() + NUM_WIDTH as int + 1 <= s.len(),
        s.subrange(i, i + k.len()) == k,
        has_decfix_at(s, i + k.len(), v),
        s[i + k.len() + NUM_WIDTH as int] == '\n',
{
    broadcast use lemma_decfix_len;

    let f = num_field_enc(k, v);
    let a = k.len() as int;
    let d = decfix(v, NUM_WIDTH as nat);
    assert forall|x: int| 0 <= x < a implies s[i + x] == k[x] by {
        assert(s.subrange(i, i + f.len() as int)[x] == s[i + x]);
        assert(f[x] == k[x]);
    }
    assert forall|y: int| 0 <= y < NUM_WIDTH as int implies s[i + a + y] == d[y] by {
        assert(s.subrange(i, i + f.len() as int)[a + y] == s[i + a + y]);
        assert(f[a + y] == d[y]);
    }
    assert(s.subrange(i, i + f.len() as int)[a + NUM_WIDTH as int] == s[i + a + NUM_WIDTH as int]);
    assert(f[a + NUM_WIDTH as int] == '\n');
    assert(s.subrange(i, i + a) =~= k);
    assert(s.subrange(i + a, i + a + NUM_WIDTH as int) =~= d);
}

/// Assembles a numeric field from its pieces.
proof fn lemma_num_field_compose(s: Seq<char>, i: int, k: Seq<char>, v: nat)
    requires
        0 <= i,
        i + k.len() + NUM_WIDTH as int + 1 <= s.len(),
        s.subrange(i, i + k.len()) == k,
        has_decfix_at(s, i + k.len(), v),
        s[i + k.len() + NUM_WIDTH as int] == '\n',
    ensures
        has_num_field_at(s, i, k, v),
{
    broadcast use lemma_decfix_len;

    let f = num_field_enc(k, v);
    let a = k.len() as int;
    let d = decfix(v, NUM_WIDTH as nat);
    assert forall|x: int| 0 <= x < f.len() implies s[i + x] == f[x] by {
        if x < a {
            assert(s.subrange(i, i + a)[x] == k[x]);
        } else if x < a + NUM_WIDTH as int {
            assert(s.subrange(i + a, i + a + NUM_WIDTH as int)[x - a] == d[x - a]);
        } else {
        }
    }
    assert(s.subrange(i, i + f.len() as int) =~= f);
}

/// At one position, one key admits only one field value.
proof fn lemma_field_at_unique(s: Seq<char>, i: int, k: Seq<char>, w1: Seq<char>, w2: Seq<char>)
    requires
        s.len() <= u64::MAX,
        has_field_at(s, i, k, w1),
        has_field_at(s, i, k, w2),
    ensures
        w1 == w2,
{
    lemma_field_parts(s, i, k, w1);
    lemma_field_parts(s, i, k, w2);
    lemma_u64_below_pow20(u64::MAX);
    lemma_decfix_injective_nat(w1.len(), w2.len());
    assert(w1 =~= w2);
}

/// At one position, one key admits only one numeric value.
proof fn lemma_num_field_at_unique(s: Seq<char>, i: int, k: Seq<char>, v1: nat, v2: nat)
    requires
        v1 < pow10(NUM_WIDTH as nat),
        v2 < pow10(NUM_WIDTH as nat),
        has_num_field_at(s, i, k, v1),
        has_num_field_at(s, i, k, v2),
    ensures
        v1 == v2,
{
    lemma_num_field_parts(s, i, k, v1);
    lemma_num_field_parts(s, i, k, v2);
    lemma_decfix_injective_nat(v1, v2);
}

/// The decimal digit value of a character, if it is one.
fn digit_val(c: char) -> (r: Option<u64>)
    ensures
        match r {
            Some(d) => d < 10 && char_digit(c) == d as nat,
            None => !is_digit_char(c),
        },
{
    if c == '0' {
        Some(0)
    } else if c == '1' {
        Some(1)
    } else if c == '2' {
        Some(2)
    } else if c == '3' {
        Some(3)
    } else if c == '4' {
        Some(4)
    } else if c == '5' {
        Some(5)
    } else if c == '6' {
        Some(6)
    } else if c == '7' {
        Some(7)
    } else if c == '8' {
        Some(8)
    } else if c == '9' {
        Some(9)
    } else {
        None
    }
}

/// Checks that the characters of `lit` stand at position `i` of `s`.
fn expect_lit(s: &str, i: usize, n: usize, lit: &str) -> (b: bool)
    requires
        i <= n,
        n == s@.len(),
    ensures
        b == (i + lit@.len() <= n && s@.subrange(i as int, i as int + lit@.len() as int)
            == lit@),
{
    let l = lit.unicode_len();
    if l > n - i {
        return false;
    }
    let mut j: usize = 0;
    while j < l
        invariant
            j <= l,
            i + l <= n,
            n == s@.len(),
            l == lit@.len(),
            forall|x: int| 0 <= x < j ==> s@[i + x] == lit@[x],
        decreases l - j,
    {
        if s.get_char(i + j) != lit.get_char(j) {
            proof {
                if s@.subrange(i as int, i as int + l as int) == lit@ {
                    assert(s@.subrange(i as int, i as int + l as int)[j as int] == s@[i + j]);
                }
            }
            return false;
        }
        j = j + 1;
    }
    proof {
        assert(s@.subrange(i as int, i as int + l as int) =~= lit@);
    }
    true
}

/// Reads a fixed run of twenty decimal digits at position `i` as a `u64`.
fn parse_fixed_u64(s: &str, i: usize, n: usize) -> (r: Option<u64>)
    requires
        i <= n,
        n == s@.len(),
    ensures
        match r {
            Some(v) => i + NUM_WIDTH <= n && has_decfix_at(s@, i as int, v as nat),
            None => forall|m: u64| !(#[trigger] has_decfix_at(s@, i as int, m as nat)),
        },
{
    broadcast use lemma_decfix_len;

    if NUM_WIDTH > n - i {
        proof {
            assert forall|m: u64| !(#[trigger] has_decfix_at(s@, i as int, m as nat)) by {}
        }
        return None;
    }
    let mut acc: u64 = 0;
    let mut j: usize = 0;
    while j < NUM_WIDTH
        invariant
            j <= NUM_WIDTH,
            i + NUM_WIDTH <= n,
            n == s@.len(),
            forall|x: int| 0 <= x < j ==> is_digit_char(#[trigger] s@[i + x]),
            acc as nat == digits_val(s@.subrange(i as int, i as int + j as int)),
        decreases NUM_WIDTH - j,
    {
        let c = s.get_char(i + j);
        let ghost prefix = s@.subrange(i as int, i as int + j as int);
        let ghost prefix1 = s@.subrange(i as int, i as int + j as int + 1);
        proof {
            assert(prefix1.drop_last() =~= prefix);
            assert(prefix1.last() == s@[i + j]);
        }
        match digit_val(c) {
            None => {
                proof {
                    assert forall|m: u64| !(#[trigger] has_decfix_at(s@, i as int, m as nat)) by {
                        if has_decfix_at(s@, i as int, m as nat) {
                            lemma_decfix_digits(m as nat, NUM_WIDTH as nat);
                            assert(s@.subrange(i as int, i as int + NUM_WIDTH as int)[j as int]
                                == s@[i + j]);
                            assert(is_digit_char(s@[i + j]));
                        }
                    }
                }
                return None;
            },
            Some(d) => {
                if acc > (u64::MAX - d) / 10 {
                    proof {
                        assert forall|m: u64| !(#[trigger] has_decfix_at(s@, i as int, m as nat))
                            by {
                            if has_decfix_at(s@, i as int, m as nat) {
                                let full = s@.subrange(i as int, i as int + NUM_WIDTH as int);
                                lemma_u64_below_pow20(m);
                                lemma_decfix_val(m as nat, NUM_WIDTH as nat);
                                assert(prefix1 =~= full.take(j as int + 1));
                                lemma_val_prefix_le(full, j as int + 1);
                                assert(digits_val(prefix1) == acc as nat * 10 + d as nat);
                                assert(acc as nat * 10 + d as nat <= m as nat);
                                assert(acc <= (u64::MAX - d) / 10) by (nonlinear_arith)
                                    requires
                                        acc as nat * 10 + d as nat <= u64::MAX as nat,
                                        d < 10,
                                ;
                            }
                        }
                    }
                    return None;
                }
                proof {
                    assert(acc * 10 + d <= u64::MAX) by (nonlinear_arith)
                        requires
                            acc <= (u64::MAX - d as u64) / 10,
                            d < 10,
                    ;
                }
                acc = acc * 10 + d;
                proof {
                    assert(digits_val(prefix1) == digits_val(prefix) * 10 + char_digit(s@[i + j]));
                }
            },
        }
        j = j + 1;
    }
    proof {
        let full = s@.subrange(i as int, i as int + NUM_WIDTH as int);
        assert forall|x: int| 0 <= x < NUM_WIDTH as int implies is_digit_char(
            #[trigger] full[x],
        ) by {
            assert(full[x] == s@[i + x]);
        }
        lemma_digits_canonical(full, NUM_WIDTH as nat);
        assert(decfix(acc as nat, NUM_WIDTH as nat) =~= full);
    }
    Some(acc)
}

/// Copies `cnt` characters starting at position `i` into a fresh string.
fn take_chars(s: &str, i: usize, n: usize, cnt: usize) -> (r: Option<String>)
    requires
        i <= n,
        n == s@.len(),
    ensures
        match r {
            Some(w) => i + cnt <= n && w@ == s@.subrange(i as int, i as int + cnt as int),
            None => i + cnt > n,
        },
{
    if cnt > n - i {
        return None;
    }
    let sub = s.substring_char(i, i + cnt);
    Some(sub.to_owned())
}

/// Length of a string field for key `k` and value `w`.
pub open spec fn fe_len(k: Seq<char>, w: Seq<char>) -> int {
    k.len() + NUM_WIDTH as int + 2 + w.len()
}

/// Length of a numeric field for key `k`.
pub open spec fn nfe_len(k: Seq<char>) -> int {
    k.len() + NUM_WIDTH as int + 1
}

/// Position of the permission-count field inside a record's document.
pub open spec fn enc_permhead_pos(t: TokenData) -> int {
    fe_len("token:"@, t.token@) + fe_len("refresh_token:"@, t.refresh_token@) + fe_len(
        "user_id:"@,
        t.user_id@,
    ) + fe_len("username:"@, t.username@)
}

/// Position of the first permission line inside a record's document.
pub open spec fn enc_perms_pos(t: TokenData) -> int {
    enc_permhead_pos(t) + nfe_len("permissions:"@)
}

/// Position of the expiration field inside a record's document.
pub open spec fn enc_expires_pos(t: TokenData) -> int {
    enc_perms_pos(t) + perms_enc(t.permissions.deep_view()).len()
}

/// One more permission line extends the permission block by one field.
proof fn lemma_perms_take_succ(ws: Seq<Seq<char>>, j: int)
    requires
        0 <= j < ws.len(),
    ensures
        perms_enc(ws.take(j + 1)) == perms_enc(ws.take(j)) + field_enc("p:"@, ws[j]),
{
    assert(ws.take(j + 1).drop_last() =~= ws.take(j));
    assert(ws.take(j + 1).last() == ws[j]);
}

/// Inside a permission block, the `j`-th permission line stands right after
/// the encoding of the first `j` tags.
proof fn lemma_perms_enc_index(s: Seq<char>, base: int, ws: Seq<Seq<char>>, j: int)
    requires
        0 <= base,
        0 <= j < ws.len(),
        base + perms_enc(ws).len() <= s.len(),
        s.subrange(base, base + perms_enc(ws).len()) == perms_enc(ws),
    ensures
        has_field_at(s, base + perms_enc(ws.take(j)).len(), "p:"@, ws[j]),
    decreases ws.len(),
{
    broadcast use lemma_decfix_len;

    let ws0 = ws.drop_last();
    lemma_concat_parts(s, base, perms_enc(ws0), field_enc("p:"@, ws.last()));
    if j == ws.len() - 1 {
        assert(ws0 =~= ws.take(j));
    } else {
        lemma_perms_enc_index(s, base, ws0, j);
        assert(ws0.take(j) =~= ws.take(j));
    }
}

/// Splits a whole document into its fields at their positions.
proof fn lemma_enc_parts(s: Seq<char>, t: TokenData)
    requires
        s == encode_spec(t),
    ensures
        has_field_at(s, 0, "token:"@, t.token@),
        has_field_at(s, fe_len("token:"@, t.token@), "refresh_token:"@, t.refresh_token@),
        has_field_at(
            s,
            fe_len("token:"@, t.token@) + fe_len("refresh_token:"@, t.refresh_token@),
            "user_id:"@,
            t.user_id@,
        ),
        has_field_at(
            s,
            fe_len("token:"@, t.token@) + fe_len("refresh_token:"@, t.refresh_token@) + fe_len(
                "user_id:"@,
                t.user_id@,
            ),
            "username:"@,
            t.username@,
        ),
        has_num_field_at(s, enc_permhead_pos(t), "permissions:"@, t.permissions.deep_view().len()),
        s.subrange(enc_perms_pos(t), enc_expires_pos(t)) == perms_enc(t.permissions.deep_view()),
        has_num_field_at(s, enc_expires_pos(t), "expires_at:"@, t.expires_at as nat),
        s.len() == enc_expires_pos(t) + nfe_len("expires_at:"@),
{
    broadcast use lemma_decfix_len;

    let dv = t.permissions.deep_view();
    let f1 = field_enc("token:"@, t.token@);
    let f2 = field_enc("refresh_token:"@, t.refresh_token@);
    let f3 = field_enc("user_id:"@, t.user_id@);
    let f4 = field_enc("username:"@, t.username@);
    let f5 = num_field_enc("permissions:"@, dv.len());
    let f6 = perms_enc(dv);
    let f7 = num_field_enc("expires_at:"@, t.expires_at as nat);
    let x2 = f1 + f2;
    let x3 = f1 + f2 + f3;
    let x4 = f1 + f2 + f3 + f4;
    let x5 = f1 + f2 + f3 + f4 + f5;
    let x6 = f1 + f2 + f3 + f4 + f5 + f6;
    assert(s.subrange(0, s.len() as int) =~= s);
    lemma_concat_parts(s, 0, x6, f7);
    lemma_concat_parts(s, 0, x5, f6);
    lemma_concat_parts(s, 0, x4, f5);
    lemma_concat_parts(s, 0, x3, f4);
    lemma_concat_parts(s, 0, x2, f3);
    lemma_concat_parts(s, 0, f1, f2);
}

/// Is this text the document of some credential record?
pub open spec fn is_record_doc(s: Seq<char>) -> bool {
    exists|t: TokenData| encode_spec(t) == s
}

/// The record a document stands for.
pub open spec fn record_of(s: Seq<char>) -> TokenData {
    choose|t: TokenData| encode_spec(t) == s
}

/// A permission block is at least as long as its tag count.
proof fn lemma_perms_enc_len_ge(ws: Seq<Seq<char>>)
    ensures
        perms_enc(ws).len() >= ws.len(),
    decreases ws.len(),
{
    broadcast use lemma_decfix_len;

    if ws.len() > 0 {
        lemma_perms_enc_len_ge(ws.drop_last());
    }
}

/// Two permission lists whose blocks stand at the same place agree.
proof fn lemma_perms_enc_inj(
    s: Seq<char>,
    base: int,
    ws1: Seq<Seq<char>>,
    ws2: Seq<Seq<char>>,
    j: int,
)
    requires
        s.len() <= u64::MAX,
        0 <= base,
        ws1.len() == ws2.len(),
        0 <= j <= ws1.len(),
        base + perms_enc(ws1).len() <= s.len(),
        base + perms_enc(ws2).len() <= s.len(),
        s.subrange(base, base + perms_enc(ws1).len()) == perms_enc(ws1),
        s.subrange(base, base + perms_enc(ws2).len()) == perms_enc(ws2),
    ensures
        ws1.take(j) == ws2.take(j),
    decreases j,
{
    if j > 0 {
        lemma_perms_enc_inj(s, base, ws1, ws2, j - 1);
        lemma_perms_enc_index(s, base, ws1, j - 1);
        lemma_perms_enc_index(s, base, ws2, j - 1);
        lemma_field_at_unique(
            s,
            base + perms_enc(ws1.take(j - 1)).len(),
            "p:"@,
            ws1[j - 1],
            ws2[j - 1],
        );
        assert(ws1.take(j) =~= ws2.take(j));
    } else {
        assert(ws1.take(0) =~= ws2.take(0));
    }
}

/// The document determines the record: two records with the same document
/// agree field by field. (The length bound is a machine limit: any document
/// held in memory satisfies it.)
pub proof fn lemma_encode_injective(t1: TokenData, t2: TokenData)
    requires
        encode_spec(t1) == encode_spec(t2),
        encode_spec(t1).len() <= u64::MAX,
    ensures
        t1.token@ == t2.token@,
        t1.refresh_token@ == t2.refresh_token@,
        t1.user_id@ == t2.user_id@,
        t1.username@ == t2.username@,
        t1.permissions.deep_view() == t2.permissions.deep_view(),
        t1.expires_at == t2.expires_at,
{
    broadcast use lemma_decfix_len;

    let s = encode_spec(t1);
    lemma_enc_parts(s, t1);
    lemma_enc_parts(s, t2);
    lemma_field_at_unique(s, 0, "token:"@, t1.token@, t2.token@);
    lemma_field_at_unique(
        s,
        fe_len("token:"@, t1.token@),
        "refresh_token:"@,
        t1.refresh_token@,
        t2.refresh_token@,
    );
    lemma_field_at_unique(
        s,
        fe_len("token:"@, t1.token@) + fe_len("refresh_token:"@, t1.refresh_token@),
        "user_id:"@,
        t1.user_id@,
        t2.user_id@,
    );
    lemma_field_at_unique(
        s,
        fe_len("token:"@, t1.token@) + fe_len("refresh_token:"@, t1.refresh_token@) + fe_len(
            "user_id:"@,
            t1.user_id@,
        ),
        "username:"@,
        t1.username@,
        t2.username@,
    );
    let dv1 = t1.permissions.deep_view();
    let dv2 = t2.permissions.deep_view();
    lemma_perms_enc_len_ge(dv1);
    lemma_perms_enc_len_ge(dv2);
    lemma_u64_below_pow20(u64::MAX);
    lemma_num_field_at_unique(s, enc_permhead_pos(t1), "permissions:"@, dv1.len(), dv2.len());
    lemma_perms_enc_inj(s, enc_perms_pos(t1), dv1, dv2, dv1.len() as int);
    assert(dv1.take(dv1.len() as int) =~= dv1);
    assert(dv2.take(dv2.len() as int) =~= dv2);
    lemma_u64_below_pow20(t1.expires_at);
    lemma_u64_below_pow20(t2.expires_at);
    lemma_num_field_at_unique(
        s,
        enc_expires_pos(t1),
        "expires_at:"@,
        t1.expires_at as nat,
        t2.expires_at as nat,
    );
}

/// Reads one string field (key, fixed-width length, colon, value, newline)
/// at position `i`; on success also returns the position just past it.
fn parse_str_field(s: &str, i: usize, n: usize, key: &str) -> (r: Option<(String, usize)>)
    requires
        i <= n,
        n == s@.len(),
    ensures
        match r {
            Some(p) => {
                &&& i < p.1 <= n
                &&& p.1 as int == i + key@.len() + NUM_WIDTH as int + 2 + p.0@.len()
                &&& has_field_at(s@, i as int, key@, p.0@)
            },
            None => forall|w: Seq<char>| !(#[trigger] has_field_at(s@, i as int, key@, w)),
        },
{
    broadcast use lemma_decfix_len;

    let kl = key.unicode_len();
    if !expect_lit(s, i, n, key) {
        proof {
            assert forall|w: Seq<char>| !(#[trigger] has_field_at(s@, i as int, key@, w)) by {
                if has_field_at(s@, i as int, key@, w) {
                    lemma_field_parts(s@, i as int, key@, w);
                }
            }
        }
        return None;
    }
    let i1 = i + kl;
    let lenv = match parse_fixed_u64(s, i1, n) {
        None => {
            proof {
                assert forall|w: Seq<char>| !(#[trigger] has_field_at(s@, i as int, key@, w)) by {
                    if has_field_at(s@, i as int, key@, w) {
                        lemma_field_parts(s@, i as int, key@, w);
                        assert(w.len() <= s@.len());
                        assert(n as nat <= u64::MAX as nat);
                        let m: u64 = w.len() as u64;
                        assert(m as nat == w.len());
                        assert(has_decfix_at(s@, i1 as int, m as nat));
                    }
                }
            }
            return None;
        },
        Some(v) => v,
    };
    if lenv > n as u64 {
        proof {
            assert forall|w: Seq<char>| !(#[trigger] has_field_at(s@, i as int, key@, w)) by {
                if has_field_at(s@, i as int, key@, w) {
                    lemma_field_parts(s@, i as int, key@, w);
                    lemma_u64_below_pow20(u64::MAX);
                    lemma_decfix_injective_nat(w.len(), lenv as nat);
                }
            }
        }
        return None;
    }
    let cnt = lenv as usize;
    let i2 = i1 + NUM_WIDTH;
    if i2 >= n {
        proof {
            assert forall|w: Seq<char>| !(#[trigger] has_field_at(s@, i as int, key@, w)) by {
                if has_field_at(s@, i as int, key@, w) {
                    lemma_field_parts(s@, i as int, key@, w);
                }
            }
        }
        return None;
    }
    if s.get_char(i2) != ':' {
        proof {
            assert forall|w: Seq<char>| !(#[trigger] has_field_at(s@, i as int, key@, w)) by {
                if has_field_at(s@, i as int, key@, w) {
                    lemma_field_parts(s@, i as int, key@, w);
                }
            }
        }
        return None;
    }
    let i3 = i2 + 1;
    let w = match take_chars(s, i3, n, cnt) {
        None => {
            proof {
                assert forall|w: Seq<char>| !(#[trigger] has_field_at(s@, i as int, key@, w)) by {
                    if has_field_at(s@, i as int, key@, w) {
                        lemma_field_parts(s@, i as int, key@, w);
                        lemma_u64_below_pow20(u64::MAX);
                        lemma_decfix_injective_nat(w.len(), lenv as nat);
                    }
                }
            }
            return None;
        },
        Some(w) => w,
    };
    let i4 = i3 + cnt;
    if i4 >= n {
        proof {
            assert forall|w2: Seq<char>| !(#[trigger] has_field_at(s@, i as int, key@, w2)) by {
                if has_field_at(s@, i as int, key@, w2) {
                    lemma_field_parts(s@, i as int, key@, w2);
                    lemma_u64_below_pow20(u64::MAX);
                    lemma_decfix_injective_nat(w2.len(), lenv as nat);
                }
            }
        }
        return None;
    }
    if s.get_char(i4) != '\n' {
        proof {
            assert forall|w2: Seq<char>| !(#[trigger] has_field_at(s@, i as int, key@, w2)) by {
                if has_field_at(s@, i as int, key@, w2) {
                    lemma_field_parts(s@, i as int, key@, w2);
                    lemma_u64_below_pow20(u64::MAX);
                    lemma_decfix_injective_nat(w2.len(), lenv as nat);
                    assert(s@.subrange(i3 as int, i3 as int + w2.len()) == w2);
                    assert(s@[i4 as int] == '\n');
                }
            }
        }
        return None;
    }
    proof {
        assert(w@.len() == cnt as nat);
        lemma_field_compose(s@, i as int, key@, w@);
    }
    Some((w, i4 + 1))
}

/// Reads one numeric field (key, fixed-width value, newline) at position
/// `i`; on success also returns the position just past it.
fn parse_num_field(s: &str, i: usize, n: usize, key: &str) -> (r: Option<(u64, usize)>)
    requires
        i <= n,
        n == s@.len(),
    ensures
        match r {
            Some(p) => {
                &&& i < p.1 <= n
                &&& p.1 as int == i + key@.len() + NUM_WIDTH as int + 1
                &&& has_num_field_at(s@, i as int, key@, p.0 as nat)
            },
            None => forall|v: u64| !(#[trigger] has_num_field_at(s@, i as int, key@, v as nat)),
        },
{
    broadcast use lemma_decfix_len;

    let kl = key.unicode_len();
    if !expect_lit(s, i, n, key) {
        proof {
            assert forall|v: u64| !(#[trigger] has_num_field_at(s@, i as int, key@, v as nat)) by {
                if has_num_field_at(s@, i as int, key@, v as nat) {
                    lemma_num_field_parts(s@, i as int, key@, v as nat);
                }
            }
        }
        return None;
    }
    let i1 = i + kl;
    let v = match parse_fixed_u64(s, i1, n) {
        None => {
            proof {
                assert forall|v: u64| !(#[trigger] has_num_field_at(s@, i as int, key@, v as nat))
                    by {
                    if has_num_field_at(s@, i as int, key@, v as nat) {
                        lemma_num_field_parts(s@, i as int, key@, v as nat);
                    }
                }
            }
            return None;
        },
        Some(v) => v,
    };
    let i2 = i1 + NUM_WIDTH;
    if i2 >= n {
        proof {
            assert forall|v2: u64| !(#[trigger] has_num_field_at(s@, i as int, key@, v2 as nat))
                by {
                if has_num_field_at(s@, i as int, key@, v2 as nat) {
                    lemma_num_field_parts(s@, i as int, key@, v2 as nat);
                }
            }
        }
        return None;
    }
    if s.get_char(i2) != '\n' {
        proof {
            assert forall|v2: u64| !(#[trigger] has_num_field_at(s@, i as int, key@, v2 as nat))
                by {
                if has_num_field_at(s@, i as int, key@, v2 as nat) {
                    lemma_num_field_parts(s@, i as int, key@, v2 as nat);
                }
            }
        }
        return None;
    }
    proof {
        lemma_num_field_compose(s@, i as int, key@, v as nat);
    }
    Some((v, i2 + 1))
}

/// Serializes a credential record into the backing-file document.
pub fn encode_token_data(t: &TokenData) -> (r: String)
    ensures
        r@ == encode_spec(*t),
{
    let ghost dv = t.permissions.deep_view();
    let mut out = String::new();
    push_str_field(&mut out, "token:", t.token.as_str());
    push_str_field(&mut out, "refresh_token:", t.refresh_token.as_str());
    push_str_field(&mut out, "user_id:", t.user_id.as_str());
    push_str_field(&mut out, "username:", t.username.as_str());
    push_num_field(&mut out, "permissions:", t.permissions.len() as u64);
    let ghost head = out@;
    let mut i: usize = 0;
    while i < t.permissions.len()
        invariant
            i <= t.permissions.len(),
            dv == t.permissions.deep_view(),
            dv.len() == t.permissions@.len(),
            out@ == head + perms_enc(dv.take(i as int)),
        decreases t.permissions.len() - i,
    {
        push_str_field(&mut out, "p:", t.permissions[i].as_str());
        proof {
            assert(dv.take(i + 1).drop_last() =~= dv.take(i as int));
            assert(dv[i as int] == t.permissions@[i as int]@);
            assert(out@ =~= head + perms_enc(dv.take(i + 1)));
        }
        i = i + 1;
    }
    push_num_field(&mut out, "expires_at:", t.expires_at);
    proof {
        assert(dv.take(dv.len() as int) =~= dv);
        assert(out@ =~= encode_spec(*t));
    }
    out
}

/// The error text for content that is not a canonical record document.
fn decode_err() -> (r: String) {
    "malformed credential record".to_owned()
}

/// Parses a backing-file document. A string is accepted exactly when it is
/// the document of some credential record, and then that record is returned:
/// anything else is rejected as malformed.
pub fn decode_token_data(s: &String) -> (r: Result<TokenData, String>)
    ensures
        r matches Ok(t) ==> encode_spec(t) == s@,
        (exists|t: TokenData| encode_spec(t) == s@) ==> r is Ok,
{
    broadcast use lemma_decfix_len;

    let ghost ex = exists|t: TokenData| encode_spec(t) == s@;
    let ghost t0 = choose|t: TokenData| encode_spec(t) == s@;
    let ghost dv0 = t0.permissions.deep_view();
    proof {
        if ex {
            assert(encode_spec(t0) == s@);
            lemma_enc_parts(s@, t0);
        }
    }
    let ss = s.as_str();
    let n = ss.unicode_len();
    proof {
        assert(n as nat <= u64::MAX as nat);
    }
    let (token, p1) = match parse_str_field(ss, 0, n, "token:") {
        None => {
            proof {
                if ex {
                    assert(has_field_at(s@, 0, "token:"@, t0.token@));
                }
            }
            return Err(decode_err());
        },
        Some(x) => x,
    };
    proof {
        if ex {
            lemma_field_at_unique(s@, 0, "token:"@, token@, t0.token@);
        }
    }
    let (refresh_token, p2) = match parse_str_field(ss, p1, n, "refresh_token:") {
        None => {
            proof {
                if ex {
                    assert(has_field_at(
                        s@,
                        fe_len("token:"@, t0.token@),
                        "refresh_token:"@,
                        t0.refresh_token@,
                    ));
                }
            }
            return Err(decode_err());
        },
        Some(x) => x,
    };
    proof {
        if ex {
            lemma_field_at_unique(s@, p1 as int, "refresh_token:"@, refresh_token@,
                t0.refresh_token@);
        }
    }
    let (user_id, p3) = match parse_str_field(ss, p2, n, "user_id:") {
        None => {
            proof {
                if ex {
                    assert(has_field_at(
                        s@,
                        fe_len("token:"@, t0.token@) + fe_len("refresh_token:"@, t0.refresh_token@),
                        "user_id:"@,
                        t0.user_id@,
                    ));
                }
            }
            return Err(decode_err());
        },
        Some(x) => x,
    };
    proof {
        if ex {
            lemma_field_at_unique(s@, p2 as int, "user_id:"@, user_id@, t0.user_id@);
        }
    }
    let (username, p4) = match parse_str_field(ss, p3, n, "username:") {
        None => {
            proof {
                if ex {
                    assert(has_field_at(
                        s@,
                        fe_len("token:"@, t0.token@) + fe_len("refresh_token:"@, t0.refresh_token@)
                            + fe_len("user_id:"@, t0.user_id@),
                        "username:"@,
                        t0.username@,
                    ));
                }
            }
            return Err(decode_err());
        },
        Some(x) => x,
    };
    proof {
        if ex {
            lemma_field_at_unique(s@, p3 as int, "username:"@, username@, t0.username@);
        }
    }
    let (cnt64, p5) = match parse_num_field(ss, p4, n, "permissions:") {
        None => {
            proof {
                if ex {
                    assert(vstd::std_specs::vec::spec_vec_len(&t0.permissions)
                        == t0.permissions@.len());
                    let v: u64 = dv0.len() as u64;
                    assert(v as nat == dv0.len());
                    assert(has_num_field_at(s@, p4 as int, "permissions:"@, v as nat));
                }
            }
            return Err(decode_err());
        },
        Some(x) => x,
    };
    proof {
        if ex {
            assert(vstd::std_specs::vec::spec_vec_len(&t0.permissions) == t0.permissions@.len());
            lemma_u64_below_pow20(u64::MAX);
            lemma_u64_below_pow20(cnt64);
            lemma_num_field_at_unique(s@, p4 as int, "permissions:"@, cnt64 as nat, dv0.len());
        }
    }
    let mut perms: Vec<String> = Vec::new();
    let mut pos = p5;
    let mut k: u64 = 0;
    proof {
        if ex {
            assert(perms.deep_view() =~= dv0.take(0));
        }
    }
    while k < cnt64
        invariant
            n == s@.len(),
            ss@ == s@,
            pos <= n,
            k <= cnt64,
            ex == (exists|t: TokenData| encode_spec(t) == s@),
            dv0 == t0.permissions.deep_view(),
            ex ==> encode_spec(t0) == s@,
            ex ==> cnt64 as nat == dv0.len(),
            ex ==> p5 as int == enc_perms_pos(t0),
            ex ==> perms.deep_view() == dv0.take(k as int),
            ex ==> pos as int == p5 + perms_enc(dv0.take(k as int)).len(),
        decreases cnt64 - k,
    {
        broadcast use lemma_decfix_len;

        let ghost kk = k as int;
        match parse_str_field(ss, pos, n, "p:") {
            None => {
                proof {
                    if ex {
                        lemma_enc_parts(s@, t0);
                        lemma_perms_enc_index(s@, p5 as int, dv0, kk);
                        assert(has_field_at(s@, pos as int, "p:"@, dv0[kk]));
                    }
                }
                return Err(decode_err());
            },
            Some((w, j)) => {
                proof {
                    if ex {
                        lemma_enc_parts(s@, t0);
                        lemma_perms_enc_index(s@, p5 as int, dv0, kk);
                        assert(n as nat <= u64::MAX as nat);
                        lemma_field_at_unique(s@, pos as int, "p:"@, w@, dv0[kk]);
                        lemma_perms_take_succ(dv0, kk);
                    }
                }
                let ghost dv_old = perms.deep_view();
                perms.push(w);
                proof {
                    assert(perms.deep_view() =~= dv_old.push(w@));
                    if ex {
                        assert(perms.deep_view() =~= dv0.take(kk + 1));
                    }
                }
                pos = j;
                k = k + 1;
            },
        }
    }
    proof {
        if ex {
            assert(dv0.take(cnt64 as int) =~= dv0);
        }
    }
    let (exp, p7) = match parse_num_field(ss, pos, n, "expires_at:") {
        None => {
            proof {
                if ex {
                    lemma_enc_parts(s@, t0);
                    assert(has_num_field_at(s@, pos as int, "expires_at:"@, t0.expires_at as nat));
                }
            }
            return Err(decode_err());
        },
        Some(x) => x,
    };
    proof {
        if ex {
            lemma_enc_parts(s@, t0);
            lemma_u64_below_pow20(exp);
            lemma_u64_below_pow20(t0.expires_at);
            lemma_num_field_at_unique(s@, pos as int, "expires_at:"@, exp as nat,
                t0.expires_at as nat);
        }
    }
    if p7 != n {
        proof {
            if ex {
                lemma_enc_parts(s@, t0);
            }
        }
        return Err(decode_err());
    }
    let t = TokenData { token, refresh_token, user_id, username, permissions: perms, expires_at: exp };
    let enc = encode_token_data(&t);
    if enc.eq(s) {
        Ok(t)
    } else {
        proof {
            if ex {
                assert(t.permissions.deep_view() == dv0);
                assert(encode_spec(t) == encode_spec(t0));
            }
        }
        Err(decode_err())
    }
}

} // verus!
