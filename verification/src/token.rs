//! The session-token wire form: an opaque 128-bit identifier travels in a
//! cookie as a canonical hyphenated UUID string. Parsing is total: any
//! malformed value is rejected, and the access gate then treats the request
//! as carrying no token at all.

use vstd::prelude::*;
use vstd::arithmetic::div_mod::*;
use vstd::arithmetic::power2::*;

verus! {

/// Is `c` an ASCII hex digit?
pub open spec fn is_hex_digit(c: char) -> bool {
    ('0' <= c && c <= '9') || ('a' <= c && c <= 'f') || ('A' <= c && c <= 'F')
}

/// The numeric value of a hex digit.
pub open spec fn hex_val(c: char) -> int {
    if '0' <= c && c <= '9' {
        c as int - '0' as int
    } else if 'a' <= c && c <= 'f' {
        c as int - 'a' as int + 10
    } else {
        c as int - 'A' as int + 10
    }
}

/// Is `i` one of the four hyphen positions of a hyphenated UUID string?
pub open spec fn is_hyphen_pos(i: int) -> bool {
    i == 8 || i == 13 || i == 18 || i == 23
}

/// A canonical hyphenated UUID string: five hex groups of 8, 4, 4, 4 and 12
/// digits, separated by hyphens.
pub open spec fn uuid_groups_ok(s: Seq<char>) -> bool {
    &&& s.len() == 36
    &&& forall|i: int| 0 <= i < 36 && is_hyphen_pos(i) ==> #[trigger] s[i] == '-'
    &&& forall|i: int| 0 <= i < 36 && !is_hyphen_pos(i) ==> is_hex_digit(#[trigger] s[i])
}

/// The 32 hex digits of a hyphenated UUID string, most significant first.
pub open spec fn uuid_digits(s: Seq<char>) -> Seq<char> {
    s.subrange(0, 8) + s.subrange(9, 13) + s.subrange(14, 18) + s.subrange(19, 23) + s.subrange(
        24,
        36,
    )
}

/// The position in the full string of digit number `k`.
pub open spec fn digit_pos(k: int) -> int {
    if k < 8 {
        k
    } else if k < 12 {
        k + 1
    } else if k < 16 {
        k + 2
    } else if k < 20 {
        k + 3
    } else {
        k + 4
    }
}

/// How many of the first `i` positions of the string are digit positions.
pub open spec fn digits_before(i: int) -> int {
    if i <= 8 {
        i
    } else if i <= 13 {
        i - 1
    } else if i <= 18 {
        i - 2
    } else if i <= 23 {
        i - 3
    } else {
        i - 4
    }
}

/// The value of a run of hex digits, most significant first, folded onto
/// `acc`.
pub open spec fn hex_value(digits: Seq<char>, acc: int) -> int
    decreases digits.len(),
{
    if digits.len() == 0 {
        acc
    } else {
        hex_value(digits.drop_first(), acc * 16 + hex_val(digits.first()))
    }
}

/// The 128-bit value a hyphenated UUID string denotes (big-endian hex).
pub open spec fn uuid_value(s: Seq<char>) -> int {
    hex_value(uuid_digits(s), 0)
}

/// Digit `k` of the string is the character at its `digit_pos`.
proof fn lemma_uuid_digit(s: Seq<char>, k: int)
    requires
        s.len() == 36,
        0 <= k < 32,
    ensures
        uuid_digits(s)[k] == s[digit_pos(k)],
{
    let a = s.subrange(0, 8);
    let b = s.subrange(9, 13);
    let c = s.subrange(14, 18);
    let d = s.subrange(19, 23);
    let e = s.subrange(24, 36);
    assert(uuid_digits(s) == a + b + c + d + e);
    if k < 8 {
        assert(uuid_digits(s)[k] == a[k]);
    } else if k < 12 {
        assert(uuid_digits(s)[k] == b[k - 8]);
    } else if k < 16 {
        assert(uuid_digits(s)[k] == c[k - 12]);
    } else if k < 20 {
        assert(uuid_digits(s)[k] == d[k - 16]);
    } else {
        assert(uuid_digits(s)[k] == e[k - 20]);
    }
}

/// The numeric value of a hex digit character, if it is one.
fn hex_digit_value(c: char) -> (r: Option<u8>)
    ensures
        match r {
            Some(d) => is_hex_digit(c) && d < 16 && d as int == hex_val(c),
            None => !is_hex_digit(c),
        },
{
    if c >= '0' && c <= '9' {
        Some(((c as u32) - ('0' as u32)) as u8)
    } else if c >= 'a' && c <= 'f' {
        Some(((c as u32) - ('a' as u32) + 10) as u8)
    } else if c >= 'A' && c <= 'F' {
        Some(((c as u32) - ('A' as u32) + 10) as u8)
    } else {
        None
    }
}

/// Parse a canonical hyphenated UUID string into the 128-bit value it
/// denotes. Anything else — wrong length, misplaced hyphens, a non-hex
/// character — is rejected.
pub fn parse_uuid(s: &str) -> (r: Option<u128>)
    ensures
        match r {
            Some(v) => uuid_groups_ok(s@) && v as int == uuid_value(s@),
            None => !uuid_groups_ok(s@),
        },
{
    if s.unicode_len() != 36 {
        return None;
    }
    let mut acc: u128 = 0;
    let mut i: usize = 0;
    proof {
        assert(uuid_digits(s@).skip(0) =~= uuid_digits(s@));
        assert(pow2(0) == 1) by {
            lemma2_to64();
        }
    }
    while i < 36
        invariant
            s@.len() == 36,
            i <= 36,
            forall|j: int|
                0 <= j < i && is_hyphen_pos(j) ==> #[trigger] s@[j] == '-',
            forall|j: int|
                0 <= j < i && !is_hyphen_pos(j) ==> is_hex_digit(#[trigger] s@[j]),
            0 <= digits_before(i as int) <= 32,
            acc < pow2((4 * digits_before(i as int)) as nat),
            hex_value(uuid_digits(s@).skip(digits_before(i as int)), acc as int) == uuid_value(
                s@,
            ),
        decreases 36 - i,
    {
        let c = s.get_char(i);
        let ghost dc = digits_before(i as int);
        if i == 8 || i == 13 || i == 18 || i == 23 {
            if c != '-' {
                return None;
            }
        } else {
            let d = match hex_digit_value(c) {
                Some(d) => d,
                None => {
                    return None;
                },
            };
            proof {
                lemma_uuid_digit(s@, dc);
                assert(digit_pos(dc) == i);
                assert(uuid_digits(s@)[dc] == s@[i as int]);
                let rest = uuid_digits(s@).skip(dc);
                assert(rest.len() == 32 - dc);
                assert(rest.first() == uuid_digits(s@)[dc]);
                assert(rest.drop_first() =~= uuid_digits(s@).skip(dc + 1));
                // The accumulator keeps room for one more digit.
                lemma_pow2_adds((4 * dc) as nat, 4);
                assert(pow2(4) == 16) by {
                    lemma2_to64();
                }
                assert(acc * 16 + d < pow2((4 * dc) as nat) * 16) by (nonlinear_arith)
                    requires
                        acc < pow2((4 * dc) as nat),
                        d < 16,
                ;
                assert(pow2((4 * (dc + 1)) as nat) <= pow2(128)) by {
                    if 4 * (dc + 1) < 128 {
                        lemma_pow2_strictly_increases((4 * (dc + 1)) as nat, 128);
                    }
                }
                assert(pow2(128) == 0x100000000000000000000000000000000) by {
                    lemma_pow2_adds(64, 64);
                    lemma2_to64();
                }
            }
            acc = acc * 16 + (d as u128);
        }
        i = i + 1;
    }
    proof {
        assert(digits_before(36) == 32);
        assert(uuid_digits(s@).skip(32).len() == 0);
        assert(hex_value(uuid_digits(s@).skip(32), acc as int) == acc as int);
    }
    Some(acc)
}

/// Sixteen to the `n`th power.
pub open spec fn pow16(n: nat) -> int
    decreases n,
{
    if n == 0 {
        1
    } else {
        16 * pow16((n - 1) as nat)
    }
}

proof fn lemma_pow16_is_pow2(n: nat)
    ensures
        pow16(n) == pow2(4 * n),
    decreases n,
{
    if n == 0 {
        assert(pow2(0) == 1) by {
            lemma2_to64();
        }
    } else {
        lemma_pow16_is_pow2((n - 1) as nat);
        lemma_pow2_adds((4 * (n - 1)) as nat, 4);
        assert(pow2(4) == 16) by {
            lemma2_to64();
        }
    }
}

proof fn lemma_pow16_bound(n: nat)
    requires
        n <= 32,
    ensures
        1 <= pow16(n) <= pow2(128),
        n < 32 ==> pow16(n) < pow2(128),
{
    lemma_pow16_is_pow2(n);
    lemma_pow2_pos((4 * n) as nat);
    if 4 * n < 128 {
        lemma_pow2_strictly_increases((4 * n) as nat, 128);
    }
}

proof fn lemma_pow2_128_value()
    ensures
        pow2(128) == 0x100000000000000000000000000000000,
{
    lemma_pow2_adds(64, 64);
    lemma2_to64();
}

/// Folding one more digit onto the right multiplies the value by sixteen.
proof fn lemma_hex_value_push(s: Seq<char>, c: char, a: int)
    ensures
        hex_value(s.push(c), a) == hex_value(s, a) * 16 + hex_val(c),
    decreases s.len(),
{
    if s.len() == 0 {
        assert(s.push(c).len() == 1);
        assert(s.push(c).first() == c);
        assert(s.push(c).drop_first() =~= Seq::<char>::empty());
        assert(hex_value(s.push(c).drop_first(), a * 16 + hex_val(c)) == a * 16 + hex_val(c));
        assert(hex_value(s.push(c), a) == a * 16 + hex_val(c));
        assert(hex_value(s, a) == a);
    } else {
        assert(s.push(c).first() == s.first());
        assert(s.push(c).drop_first() =~= s.drop_first().push(c));
        lemma_hex_value_push(s.drop_first(), c, a * 16 + hex_val(s.first()));
        assert(hex_value(s.push(c), a) == hex_value(
            s.drop_first().push(c),
            a * 16 + hex_val(s.first()),
        ));
        assert(hex_value(s, a) == hex_value(s.drop_first(), a * 16 + hex_val(s.first())));
    }
}

/// The lowercase hex digit with value `d`.
fn hex_char(d: u8) -> (c: char)
    requires
        d < 16,
    ensures
        is_hex_digit(c),
        hex_val(c) == d as int,
{
    match d {
        0 => '0',
        1 => '1',
        2 => '2',
        3 => '3',
        4 => '4',
        5 => '5',
        6 => '6',
        7 => '7',
        8 => '8',
        9 => '9',
        10 => 'a',
        11 => 'b',
        12 => 'c',
        13 => 'd',
        14 => 'e',
        _ => 'f',
    }
}

/// Relies on String::push: appends the given character to the end of the
/// string.
#[verifier::external_body]
fn push_char(s: &mut String, c: char)
    ensures
        final(s)@ == old(s)@.push(c),
{
    s.push(c);
}

/// Render a 128-bit identifier as a canonical hyphenated UUID string: the
/// form `parse_uuid` accepts, denoting exactly `v`.
pub fn format_uuid(v: u128) -> (r: String)
    ensures
        uuid_groups_ok(r@),
        uuid_value(r@) == v as int,
{
    // divisor runs through 16^31, 16^30, ..., 16^0: the place value of each
    // successive digit, most significant first.
    let mut divisor: u128 = 1;
    let mut j: usize = 0;
    while j < 31
        invariant
            j <= 31,
            divisor as int == pow16(j as nat),
        decreases 31 - j,
    {
        proof {
            lemma_pow16_bound((j + 1) as nat);
            lemma_pow2_128_value();
        }
        divisor = divisor * 16;
        j = j + 1;
    }
    let mut out = String::new();
    let ghost mut digits: Seq<char> = Seq::empty();
    let mut i: usize = 0;
    proof {
        lemma_pow16_is_pow2(32);
        lemma_pow2_128_value();
        assert((v as int) < pow16(32));
        assert(v as int / pow16(32) == 0) by {
            lemma_basic_div(v as int, pow16(32));
        }
    }
    while i < 36
        invariant
            i <= 36,
            digits.len() == digits_before(i as int),
            out@.len() == i,
            forall|k: int|
                0 <= k < i && is_hyphen_pos(k) ==> #[trigger] out@[k] == '-',
            forall|k: int|
                0 <= k < i && !is_hyphen_pos(k) ==> #[trigger] out@[k] == digits[digits_before(k)],
            forall|k: int| 0 <= k < digits.len() ==> is_hex_digit(#[trigger] digits[k]),
            digits_before(i as int) < 32 ==> divisor as int == pow16(
                (31 - digits_before(i as int)) as nat,
            ),
            hex_value(digits, 0) == v as int / pow16((32 - digits_before(i as int)) as nat),
        decreases 36 - i,
    {
        let ghost dc = digits_before(i as int);
        if i == 8 || i == 13 || i == 18 || i == 23 {
            push_char(&mut out, '-');
        } else {
            proof {
                lemma_pow16_bound((31 - dc) as nat);
            }
            let d = ((v / divisor) % 16) as u8;
            let c = hex_char(d);
            proof {
                lemma_hex_value_push(digits, c, 0);
                // One more digit refines the quotient by one place value.
                let p = pow16((31 - dc) as nat);
                let x = v as int / p;
                lemma_div_denominator(v as int, p, 16);
                assert(p * 16 == pow16((32 - dc) as nat)) by {
                    assert(pow16((32 - dc) as nat) == 16 * pow16((31 - dc) as nat));
                }
                assert(x / 16 == v as int / pow16((32 - dc) as nat));
                lemma_fundamental_div_mod(x, 16);
                assert(x == 16 * (x / 16) + x % 16);
                assert(hex_value(digits.push(c), 0) == (x / 16) * 16 + x % 16);
            }
            push_char(&mut out, c);
            proof {
                digits = digits.push(c);
            }
            if i < 35 {
                proof {
                    assert(pow16((31 - dc) as nat) == 16 * pow16((30 - dc) as nat));
                    assert((16 * pow16((30 - dc) as nat)) / 16 == pow16((30 - dc) as nat)) by {
                        lemma_div_multiples_vanish(pow16((30 - dc) as nat), 16);
                    }
                }
                divisor = divisor / 16;
            }
        }
        i = i + 1;
    }
    proof {
        assert(digits.len() == 32);
        assert(uuid_groups_ok(out@)) by {
            assert forall|k: int| 0 <= k < 36 && !is_hyphen_pos(k) implies is_hex_digit(
                #[trigger] out@[k],
            ) by {
                assert(out@[k] == digits[digits_before(k)]);
            }
        }
        assert(uuid_digits(out@) =~= digits) by {
            assert forall|k: int| 0 <= k < 32 implies uuid_digits(out@)[k] == digits[k] by {
                lemma_uuid_digit(out@, k);
                assert(!is_hyphen_pos(digit_pos(k)));
                assert(digits_before(digit_pos(k)) == k);
                assert(out@[digit_pos(k)] == digits[k]);
            }
        }
        assert(hex_value(digits, 0) == v as int / pow16(0));
        assert(v as int / 1 == v as int);
    }
    out
}

} // verus!
