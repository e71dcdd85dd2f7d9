//! Numbers and padding as text.

use vstd::arithmetic::div_mod::lemma_div_decreases;
use vstd::prelude::*;
use vstd::string::*;

verus! {

/// The digit for `d`, with lower-case letters from ten on.
pub open spec fn digit(d: int) -> char {
    if d < 10 {
        ('0' as int + d) as char
    } else {
        ('a' as int + d - 10) as char
    }
}

/// The digits of `n` in `base`, the most significant first.
pub open spec fn numeral(n: nat, base: nat) -> Seq<char>
    decreases n,
{
    if base < 2 || n < base {
        seq![digit(n as int)]
    } else {
        proof {
            lemma_div_decreases(n as int, base as int);
        }
        numeral(n / base, base).push(digit((n % base) as int))
    }
}

/// `n` in decimal.
pub open spec fn decimal(n: nat) -> Seq<char> {
    numeral(n, 10)
}

/// `n` in lower-case hexadecimal.
pub open spec fn hexadecimal(n: nat) -> Seq<char> {
    numeral(n, 16)
}

/// `n` spaces.
pub open spec fn spaces(n: nat) -> Seq<char> {
    Seq::new(n, |i: int| ' ')
}

/// How many spaces bring a text of length `len` to `width`.
pub open spec fn missing(len: nat, width: nat) -> nat {
    if len < width {
        (width - len) as nat
    } else {
        0
    }
}

/// `s` at the right end of a field of `width`.
pub open spec fn right_aligned(s: Seq<char>, width: nat) -> Seq<char> {
    spaces(missing(s.len(), width)) + s
}

/// `s` at the left end of a field of `width`.
pub open spec fn left_aligned(s: Seq<char>, width: nat) -> Seq<char> {
    s + spaces(missing(s.len(), width))
}

/// The texts of `parts`, one after the other.
pub open spec fn joined(parts: Seq<Seq<char>>) -> Seq<char>
    decreases parts.len(),
{
    if parts.len() == 0 {
        Seq::empty()
    } else {
        joined(parts.drop_last()) + parts.last()
    }
}

/// One more part comes behind the others.
pub proof fn lemma_joined_push(parts: Seq<Seq<char>>, part: Seq<char>)
    ensures
        joined(parts.push(part)) == joined(parts) + part,
{
    assert(parts.push(part).drop_last() =~= parts);
}

/// The digit for `d`, as a string.
fn digit_text(d: u64) -> (r: &'static str)
    requires
        d < 16,
    ensures
        r@ == seq![digit(d as int)],
{
    proof {
        reveal_strlit("0");
        reveal_strlit("1");
        reveal_strlit("2");
        reveal_strlit("3");
        reveal_strlit("4");
        reveal_strlit("5");
        reveal_strlit("6");
        reveal_strlit("7");
        reveal_strlit("8");
        reveal_strlit("9");
        reveal_strlit("a");
        reveal_strlit("b");
        reveal_strlit("c");
        reveal_strlit("d");
        reveal_strlit("e");
        reveal_strlit("f");
    }
    let r = match d {
        0 => "0",
        1 => "1",
        2 => "2",
        3 => "3",
        4 => "4",
        5 => "5",
        6 => "6",
        7 => "7",
        8 => "8",
        9 => "9",
        10 => "a",
        11 => "b",
        12 => "c",
        13 => "d",
        14 => "e",
        _ => "f",
    };
    assert(r@ =~= seq![digit(d as int)]);
    r
}

/// The digits of `n` in `base`.
fn numeral_text(n: u64, base: u64) -> (r: String)
    requires
        2 <= base <= 16,
    ensures
        r@ == numeral(n as nat, base as nat),
    decreases n,
{
    if n < base {
        String::from_str(digit_text(n))
    } else {
        proof {
            lemma_div_decreases(n as int, base as int);
        }
        let mut r = numeral_text(n / base, base);
        let ghost higher = r@;
        r.append(digit_text(n % base));
        assert(r@ =~= higher.push(digit((n % base) as int)));
        r
    }
}

/// `n` in decimal.
pub fn decimal_text(n: usize) -> (r: String)
    ensures
        r@ == decimal(n as nat),
{
    numeral_text(n as u64, 10)
}

/// `n` in lower-case hexadecimal.
pub fn hexadecimal_text(n: usize) -> (r: String)
    ensures
        r@ == hexadecimal(n as nat),
{
    numeral_text(n as u64, 16)
}

/// Appends `n` spaces to `out`.
pub fn append_spaces(out: &mut String, n: usize)
    ensures
        final(out)@ == old(out)@ + spaces(n as nat),
{
    proof {
        reveal_strlit(" ");
        assert(spaces(0) =~= Seq::empty());
    }
    let ghost before = out@;
    let mut i: usize = 0;
    while i < n
        invariant
            i <= n,
            out@ =~= before + spaces(i as nat),
            " "@ =~= seq![' '],
        decreases n - i,
    {
        out.append(" ");
        i = i + 1;
    }
}

/// Appends `s` to `out`, at the right end of a field of `width`.
pub fn append_right_aligned(out: &mut String, s: &str, width: usize)
    ensures
        final(out)@ == old(out)@ + right_aligned(s@, width as nat),
{
    let ghost before = out@;
    let len: usize = s.unicode_len();
    if len < width {
        append_spaces(out, width - len);
    }
    out.append(s);
    assert(out@ =~= before + right_aligned(s@, width as nat));
}

/// Appends `s` to `out`, at the left end of a field of `width`.
pub fn append_left_aligned(out: &mut String, s: &str, width: usize)
    ensures
        final(out)@ == old(out)@ + left_aligned(s@, width as nat),
{
    let ghost before = out@;
    let len: usize = s.unicode_len();
    out.append(s);
    if len < width {
        append_spaces(out, width - len);
    }
    assert(out@ =~= before + left_aligned(s@, width as nat));
}

/// What a digit is worth.
pub open spec fn worth(c: char) -> int {
    if '0' as int <= c as int <= '9' as int {
        c as int - '0' as int
    } else {
        c as int - 'a' as int + 10
    }
}

/// The number that the digits of `s` write in `base`.
pub open spec fn read_back(s: Seq<char>, base: int) -> int
    decreases s.len(),
{
    if s.len() == 0 {
        0
    } else {
        read_back(s.drop_last(), base) * base + worth(s.last())
    }
}

/// The digits of a number write that number, are digits of the base, and are no more than
/// it takes: the first is no zero, unless it is the only one.
proof fn lemma_numeral_reads_back(n: nat, base: nat)
    requires
        2 <= base <= 16,
    ensures
        numeral(n, base).len() > 0,
        read_back(numeral(n, base), base as int) == n,
        forall|i: int|
            0 <= i < numeral(n, base).len() ==> {
                let c = #[trigger] numeral(n, base)[i];
                &&& 0 <= worth(c) < base
                &&& '0' as int <= c as int <= '9' as int || 'a' as int <= c as int <= 'f' as int
            },
        n > 0 ==> numeral(n, base)[0] != '0',
        n < base ==> numeral(n, base).len() == 1,
    decreases n,
{
    let s = numeral(n, base);
    if n < base {
        assert(s.drop_last() =~= Seq::empty());
        assert(read_back(s.drop_last(), base as int) == 0);
        assert(worth(s.last()) == n);
    } else {
        lemma_div_decreases(n as int, base as int);
        let front = numeral(n / base, base);
        lemma_numeral_reads_back(n / base, base);
        assert(s.drop_last() =~= front);
        vstd::arithmetic::div_mod::lemma_fundamental_div_mod(n as int, base as int);
        vstd::arithmetic::div_mod::lemma_mod_bound(n as int, base as int);
        assert((n / base) * base == base * (n / base)) by (nonlinear_arith);
        assert(n / base > 0) by (nonlinear_arith)
            requires
                n >= base,
                base > 0,
        ;
        assert(worth(s.last()) == n % base);
        assert forall|i: int| 0 <= i < s.len() implies ({
            let c = #[trigger] s[i];
            &&& 0 <= worth(c) < base
            &&& '0' as int <= c as int <= '9' as int || 'a' as int <= c as int <= 'f' as int
        }) by {
            if i < front.len() {
                assert(s[i] == front[i]);
            }
        }
        assert(s[0] == front[0]);
    }
}

/// A number in decimal is read back as that number, and has no zero before it.
pub proof fn lemma_decimal_text_reads_back(n: usize, r: String)
    requires
        call_ensures(decimal_text, (n,), r),
    ensures
        r@.len() > 0,
        read_back(r@, 10) == n,
        forall|i: int|
            0 <= i < r@.len() ==> '0' as int <= (#[trigger] r@[i]) as int <= '9' as int,
        r@[0] == '0' ==> r@ == seq!['0'],
{
    lemma_numeral_reads_back(n as nat, 10);
    assert forall|i: int| 0 <= i < r@.len() implies '0' as int <= (#[trigger] r@[i]) as int
        <= '9' as int by {
        assert(worth(numeral(n as nat, 10)[i]) < 10);
    }
    if r@[0] == '0' {
        assert(r@ =~= seq!['0']);
    }
}

/// A number in hexadecimal is read back as that number, and has no zero before it.
pub proof fn lemma_hexadecimal_text_reads_back(n: usize, r: String)
    requires
        call_ensures(hexadecimal_text, (n,), r),
    ensures
        r@.len() > 0,
        read_back(r@, 16) == n,
        forall|i: int|
            0 <= i < r@.len() ==> ('0' as int <= (#[trigger] r@[i]) as int <= '9' as int || 'a' as int
                <= r@[i] as int <= 'f' as int),
        r@[0] == '0' ==> r@ == seq!['0'],
{
    lemma_numeral_reads_back(n as nat, 16);
    assert forall|i: int| 0 <= i < r@.len() implies ('0' as int <= (#[trigger] r@[i]) as int
        <= '9' as int || 'a' as int <= r@[i] as int <= 'f' as int) by {
        assert(worth(numeral(n as nat, 16)[i]) < 16);
    }
    if r@[0] == '0' {
        assert(r@ =~= seq!['0']);
    }
}

/// Aligned text fills its field with spaces on the other side, and is whole where it is
/// longer than the field.
pub proof fn lemma_aligned(s: Seq<char>, width: nat)
    ensures
        right_aligned(s, width).len() == if s.len() < width {
            width
        } else {
            s.len()
        },
        right_aligned(s, width).skip(right_aligned(s, width).len() - s.len()) == s,
        forall|i: int|
            0 <= i < right_aligned(s, width).len() - s.len() ==> #[trigger] right_aligned(
                s,
                width,
            )[i] == ' ',
        left_aligned(s, width).len() == right_aligned(s, width).len(),
        left_aligned(s, width).take(s.len() as int) == s,
        forall|i: int|
            s.len() <= i < left_aligned(s, width).len() ==> #[trigger] left_aligned(s, width)[i]
                == ' ',
{
    assert(right_aligned(s, width).skip(right_aligned(s, width).len() - s.len()) =~= s);
    assert(left_aligned(s, width).take(s.len() as int) =~= s);
}

/// Parts one after the other.
pub proof fn lemma_joined_flat(parts: Seq<Seq<char>>)
    ensures
        joined(parts) == parts.flatten(),
    decreases parts.len(),
{
    if parts.len() > 0 {
        lemma_joined_flat(parts.drop_last());
        parts.drop_last().lemma_flatten_push(parts.last());
        assert(parts.drop_last().push(parts.last()) =~= parts);
    }
}

} // verus!
