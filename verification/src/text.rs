//! Small string helpers shared by the serializers: decimal rendering of
//! integers, character escaping, and equality on string slices.
use vstd::prelude::*;
use vstd::string::StrSliceExecFns;
use vstd::string::StringExecFns;

verus! {

/// The character for one decimal digit.
pub open spec fn digit_char(d: nat) -> char {
    if d == 0 {
        '0'
    } else if d == 1 {
        '1'
    } else if d == 2 {
        '2'
    } else if d == 3 {
        '3'
    } else if d == 4 {
        '4'
    } else if d == 5 {
        '5'
    } else if d == 6 {
        '6'
    } else if d == 7 {
        '7'
    } else if d == 8 {
        '8'
    } else {
        '9'
    }
}

/// The decimal digits of a non-negative integer, most significant first.
pub open spec fn dec_digits(n: nat) -> Seq<char>
    decreases n,
{
    if n < 10 {
        seq![digit_char(n)]
    } else {
        dec_digits(n / 10).push(digit_char(n % 10))
    }
}

/// The decimal rendering of an integer, with a leading `-` when negative.
pub open spec fn dec_str_of(n: int) -> Seq<char> {
    if n < 0 {
        seq!['-'] + dec_digits((-n) as nat)
    } else {
        dec_digits(n as nat)
    }
}

/// The decimal rendering of an integer: its digits, preceded by `-` when it
/// is negative.
pub fn fmt_i64(x: i64) -> (r: String)
    ensures
        r@ == dec_str_of(x as int),
{
    let mut out = String::new();
    if x < 0 {
        push_char(&mut out, '-');
    }
    let mag: u64 = if x < 0 {
        // -(x + 1) stays in range even for the smallest value; the one is
        // added back after the widening.
        (-(x + 1)) as u64 + 1
    } else {
        x as u64
    };
    proof {
        if x < 0 {
            assert(mag == -(x as int));
        }
    }
    let mut digits: Vec<char> = Vec::new();
    digits.push(hex_digit((mag % 10) as u32));
    let mut m: u64 = mag / 10;
    proof {
        if m > 0 {
            assert(dec_digits(mag as nat) =~= dec_digits(m as nat) + digits@.reverse());
        } else {
            assert(mag < 10);
            assert(dec_digits(mag as nat) =~= digits@.reverse());
        }
    }
    while m > 0
        invariant
            mag == if x < 0 {
                -(x as int)
            } else {
                x as int
            },
            if m > 0 {
                dec_digits(mag as nat) == dec_digits(m as nat) + digits@.reverse()
            } else {
                dec_digits(mag as nat) == digits@.reverse()
            },
        decreases m,
    {
        let ghost m0 = m;
        let ghost before = digits@;
        digits.push(hex_digit((m % 10) as u32));
        m = m / 10;
        proof {
            assert(digits@.reverse() =~= seq![digit_char((m0 % 10) as nat)] + before.reverse());
            if m > 0 {
                assert(m0 >= 10);
                assert(dec_digits(m0 as nat) == dec_digits(m as nat).push(
                    digit_char((m0 % 10) as nat),
                ));
                assert(dec_digits(m as nat).push(digit_char((m0 % 10) as nat)) + before.reverse()
                    =~= dec_digits(m as nat) + digits@.reverse());
            } else {
                assert(m0 < 10);
                assert(dec_digits(m0 as nat) =~= seq![digit_char((m0 % 10) as nat)]);
            }
        }
    }
    let ghost base = out@;
    let ghost dg = digits@;
    let n = digits.len();
    let mut k: usize = n;
    proof {
        assert(out@ =~= base + dg.reverse().take(0));
    }
    while k > 0
        invariant
            n == digits@.len(),
            k <= n,
            digits@ == dg,
            out@ == base + dg.reverse().take(n - k),
        decreases k,
    {
        k -= 1;
        let c = digits[k];
        push_char(&mut out, c);
        proof {
            assert(dg.reverse()[n - k - 1] == dg[k as int]);
            assert(dg.reverse().take(n - k) =~= dg.reverse().take(n - k - 1).push(
                dg.reverse()[n - k - 1],
            ));
            assert(out@ =~= base + dg.reverse().take(n - k));
        }
    }
    proof {
        assert(dg.reverse().take(n as int) =~= dg.reverse());
        assert(out@ =~= base + dec_digits(mag as nat));
        if x < 0 {
            assert(out@ =~= dec_str_of(x as int));
        }
    }
    out
}

/// Relies on `String::push`: appends exactly the given character.
#[verifier::external_body]
pub fn push_char(s: &mut String, c: char)
    ensures
        final(s)@ == old(s)@.push(c),
{
    s.push(c)
}

/// Whether two string slices hold the same character sequence.
pub fn str_eq(a: &str, b: &str) -> (r: bool)
    ensures
        r == (a@ == b@),
{
    let n = a.unicode_len();
    if n != b.unicode_len() {
        return false;
    }
    let mut i: usize = 0;
    while i < n
        invariant
            n == a@.len(),
            n == b@.len(),
            i <= n,
            forall|j: int| 0 <= j < i ==> a@[j] == b@[j],
        decreases n - i,
    {
        if a.get_char(i) != b.get_char(i) {
            return false;
        }
        i += 1;
    }
    proof {
        assert(a@ =~= b@);
    }
    true
}

/// The character for one hexadecimal digit, lower case.
pub open spec fn hex_digit_char(d: nat) -> char {
    if d < 10 {
        digit_char(d)
    } else if d == 10 {
        'a'
    } else if d == 11 {
        'b'
    } else if d == 12 {
        'c'
    } else if d == 13 {
        'd'
    } else if d == 14 {
        'e'
    } else {
        'f'
    }
}

fn hex_digit(d: u32) -> (r: char)
    requires
        d < 16,
    ensures
        r == hex_digit_char(d as nat),
{
    if d == 0 {
        '0'
    } else if d == 1 {
        '1'
    } else if d == 2 {
        '2'
    } else if d == 3 {
        '3'
    } else if d == 4 {
        '4'
    } else if d == 5 {
        '5'
    } else if d == 6 {
        '6'
    } else if d == 7 {
        '7'
    } else if d == 8 {
        '8'
    } else if d == 9 {
        '9'
    } else if d == 10 {
        'a'
    } else if d == 11 {
        'b'
    } else if d == 12 {
        'c'
    } else if d == 13 {
        'd'
    } else if d == 14 {
        'e'
    } else {
        'f'
    }
}

/// How one character is written inside a quoted string: quotes and
/// backslashes get a backslash in front, the named control characters their
/// short escapes, the remaining control characters a `\u00..` escape, and
/// everything else stands as it is.
pub open spec fn esc_char(c: char) -> Seq<char> {
    if c == '"' {
        seq!['\\', '"']
    } else if c == '\\' {
        seq!['\\', '\\']
    } else if c == '\n' {
        seq!['\\', 'n']
    } else if c == '\t' {
        seq!['\\', 't']
    } else if c == '\r' {
        seq!['\\', 'r']
    } else if (c as u32) < 0x20 {
        seq!['\\', 'u', '0', '0', hex_digit_char(((c as u32) / 16) as nat), hex_digit_char(
            ((c as u32) % 16) as nat,
        )]
    } else {
        seq![c]
    }
}

/// A whole character sequence escaped for use inside a quoted string.
pub open spec fn escaped(s: Seq<char>) -> Seq<char>
    decreases s.len(),
{
    if s.len() == 0 {
        Seq::empty()
    } else {
        escaped(s.drop_last()) + esc_char(s.last())
    }
}

/// Appends the escaped form of `s` to `out`.
pub fn escape_into(out: &mut String, s: &str)
    ensures
        final(out)@ == old(out)@ + escaped(s@),
{
    let n = s.unicode_len();
    let mut i: usize = 0;
    proof {
        assert(s@.take(0) =~= Seq::<char>::empty());
        assert(out@ =~= old(out)@ + escaped(s@.take(0)));
    }
    while i < n
        invariant
            n == s@.len(),
            i <= n,
            out@ == old(out)@ + escaped(s@.take(i as int)),
        decreases n - i,
    {
        let c = s.get_char(i);
        proof {
            assert(s@.take(i + 1).drop_last() =~= s@.take(i as int));
            assert(s@.take(i + 1).last() == c);
        }
        if c == '"' {
            push_char(out, '\\');
            push_char(out, '"');
        } else if c == '\\' {
            push_char(out, '\\');
            push_char(out, '\\');
        } else if c == '\n' {
            push_char(out, '\\');
            push_char(out, 'n');
        } else if c == '\t' {
            push_char(out, '\\');
            push_char(out, 't');
        } else if c == '\r' {
            push_char(out, '\\');
            push_char(out, 'r');
        } else if (c as u32) < 0x20 {
            let code = c as u32;
            push_char(out, '\\');
            push_char(out, 'u');
            push_char(out, '0');
            push_char(out, '0');
            push_char(out, hex_digit(code / 16));
            push_char(out, hex_digit(code % 16));
        } else {
            push_char(out, c);
        }
        proof {
            assert(out@ =~= old(out)@ + escaped(s@.take(i + 1)));
        }
        i += 1;
    }
    proof {
        assert(s@.take(n as int) =~= s@);
    }
}

/// Lexicographic order on byte sequences: a proper prefix comes first.
pub open spec fn bytes_le(a: Seq<u8>, b: Seq<u8>) -> bool
    decreases a.len(),
{
    if a.len() == 0 {
        true
    } else if b.len() == 0 {
        false
    } else if a[0] < b[0] {
        true
    } else if a[0] > b[0] {
        false
    } else {
        bytes_le(a.skip(1), b.skip(1))
    }
}

/// Equal prefixes do not decide the order.
proof fn lemma_bytes_le_common_prefix(a: Seq<u8>, b: Seq<u8>, i: int)
    requires
        0 <= i <= a.len(),
        i <= b.len(),
        forall|j: int| 0 <= j < i ==> a[j] == b[j],
    ensures
        bytes_le(a, b) == bytes_le(a.skip(i), b.skip(i)),
    decreases i,
{
    if i == 0 {
        assert(a.skip(0) =~= a);
        assert(b.skip(0) =~= b);
    } else {
        assert(a[0] == b[0]);
        assert(forall|j: int| 0 <= j < i - 1 ==> a.skip(1)[j] == b.skip(1)[j]);
        lemma_bytes_le_common_prefix(a.skip(1), b.skip(1), i - 1);
        assert(a.skip(1).skip(i - 1) =~= a.skip(i));
        assert(b.skip(1).skip(i - 1) =~= b.skip(i));
    }
}

/// The byte order is total: one of the two directions always holds.
pub proof fn lemma_bytes_le_total(a: Seq<u8>, b: Seq<u8>)
    ensures
        bytes_le(a, b) || bytes_le(b, a),
    decreases a.len(),
{
    if a.len() > 0 && b.len() > 0 && a[0] == b[0] {
        lemma_bytes_le_total(a.skip(1), b.skip(1));
    }
}

/// Mutual byte order is equality.
pub proof fn lemma_bytes_le_antisym(a: Seq<u8>, b: Seq<u8>)
    requires
        bytes_le(a, b),
        bytes_le(b, a),
    ensures
        a == b,
    decreases a.len(),
{
    if a.len() == 0 {
        assert(b.len() == 0);
        assert(a =~= b);
    } else {
        assert(b.len() > 0);
        assert(a[0] == b[0]);
        lemma_bytes_le_antisym(a.skip(1), b.skip(1));
        assert(a =~= seq![a[0]] + a.skip(1));
        assert(b =~= seq![b[0]] + b.skip(1));
        assert(a == seq![a[0]] + a.skip(1));
        assert(b == seq![b[0]] + b.skip(1));
    }
}

/// The byte order chains.
pub proof fn lemma_bytes_le_trans(a: Seq<u8>, b: Seq<u8>, c: Seq<u8>)
    requires
        bytes_le(a, b),
        bytes_le(b, c),
    ensures
        bytes_le(a, c),
    decreases a.len(),
{
    if a.len() > 0 {
        assert(b.len() > 0);
        assert(c.len() > 0);
        if a[0] == b[0] && b[0] == c[0] {
            lemma_bytes_le_trans(a.skip(1), b.skip(1), c.skip(1));
        }
    }
}

/// Whether `a` comes no later than `b` in byte order.
pub fn bytes_le_exec(a: &[u8], b: &[u8]) -> (r: bool)
    ensures
        r == bytes_le(a@, b@),
{
    let an = a.len();
    let bn = b.len();
    let n = if an < bn {
        an
    } else {
        bn
    };
    let mut i: usize = 0;
    while i < n
        invariant
            n <= a@.len(),
            n <= b@.len(),
            an == a@.len(),
            bn == b@.len(),
            n == if an < bn {
                an
            } else {
                bn
            },
            i <= n,
            forall|j: int| 0 <= j < i ==> a@[j] == b@[j],
        decreases n - i,
    {
        let x = a[i];
        let y = b[i];
        if x < y {
            proof {
                lemma_bytes_le_common_prefix(a@, b@, i as int);
                assert(a@.skip(i as int)[0] == x);
                assert(b@.skip(i as int)[0] == y);
            }
            return true;
        }
        if x > y {
            proof {
                lemma_bytes_le_common_prefix(a@, b@, i as int);
                assert(a@.skip(i as int)[0] == x);
                assert(b@.skip(i as int)[0] == y);
            }
            return false;
        }
        i += 1;
    }
    proof {
        lemma_bytes_le_common_prefix(a@, b@, n as int);
        if an <= bn {
            assert(a@.skip(n as int).len() == 0);
        } else {
            assert(a@.skip(n as int).len() > 0);
            assert(b@.skip(n as int).len() == 0);
        }
    }
    an <= bn
}

/// Appends the decimal rendering of `x` to `out`.
pub fn dec_into(out: &mut String, x: i64)
    ensures
        final(out)@ == old(out)@ + dec_str_of(x as int),
{
    let digits = fmt_i64(x);
    out.append(digits.as_str());
}

} // verus!
