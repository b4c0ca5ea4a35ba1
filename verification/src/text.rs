//! Numbers as text: decimal integers and lists of hexadecimal bytes.

use vstd::arithmetic::div_mod::lemma_div_denominator;
use vstd::arithmetic::power::{lemma_pow1, lemma_pow_positive, lemma_pow0, pow};
use vstd::prelude::*;

verus! {

/// The digit for a value below sixteen, in lower case.
pub open spec fn digit_text(d: int) -> Seq<char> {
    if d == 0 {
        "0"@
    } else if d == 1 {
        "1"@
    } else if d == 2 {
        "2"@
    } else if d == 3 {
        "3"@
    } else if d == 4 {
        "4"@
    } else if d == 5 {
        "5"@
    } else if d == 6 {
        "6"@
    } else if d == 7 {
        "7"@
    } else if d == 8 {
        "8"@
    } else if d == 9 {
        "9"@
    } else if d == 10 {
        "a"@
    } else if d == 11 {
        "b"@
    } else if d == 12 {
        "c"@
    } else if d == 13 {
        "d"@
    } else if d == 14 {
        "e"@
    } else {
        "f"@
    }
}

/// `n` in decimal, without leading zeros.
pub open spec fn decimal_text(n: nat) -> Seq<char>
    decreases n,
{
    if n < 10 {
        digit_text(n as int)
    } else {
        decimal_text(n / 10) + digit_text((n % 10) as int)
    }
}

/// A byte as two hexadecimal digits.
pub open spec fn hex_text(byte: u8) -> Seq<char> {
    digit_text(byte as int / 16) + digit_text(byte as int % 16)
}

/// Bytes as hexadecimal pairs with `, ` between them.
pub open spec fn hex_items_text(bytes: Seq<u8>) -> Seq<char>
    decreases bytes.len(),
{
    if bytes.len() == 0 {
        Seq::empty()
    } else if bytes.len() == 1 {
        hex_text(bytes[0])
    } else {
        hex_items_text(bytes.drop_last()) + ", "@ + hex_text(bytes.last())
    }
}

/// Bytes as a bracketed list of hexadecimal pairs.
pub open spec fn hex_list_text(bytes: Seq<u8>) -> Seq<char> {
    "["@ + hex_items_text(bytes) + "]"@
}

fn digit(d: u8) -> (text: &'static str)
    requires
        d < 16,
    ensures
        text@ == digit_text(d as int),
{
    match d {
        0 => "0",
        1 => "1",
        2 => "2",
        3 => "3",
        4 => "4",
        5 => "5",
        6 => "6",
        7 => "7",
        8 => "8",
        9 => "9",
        10 => "a",
        11 => "b",
        12 => "c",
        13 => "d",
        14 => "e",
        _ => "f",
    }
}

/// Appends `n` in decimal.
pub(crate) fn push_decimal(out: &mut String, n: u64)
    ensures
        final(out)@ == old(out)@ + decimal_text(n as nat),
    decreases n,
{
    let ghost before = out@;
    if n < 10 {
        out.append(digit(n as u8));
    } else {
        push_decimal(out, n / 10);
        out.append(digit((n % 10) as u8));
        assert(out@ =~= before + decimal_text(n as nat));
    }
}

/// Appends `bytes` as a bracketed list of hexadecimal pairs.
pub(crate) fn push_hex_list(out: &mut String, bytes: &[u8])
    ensures
        final(out)@ == old(out)@ + hex_list_text(bytes@),
{
    let ghost before = out@;
    out.append("[");
    let mut i: usize = 0;
    assert(bytes@.take(0) =~= Seq::<u8>::empty());
    assert(out@ =~= before + "["@ + hex_items_text(bytes@.take(0)));
    while i < bytes.len()
        invariant
            i <= bytes@.len(),
            out@ == before + "["@ + hex_items_text(bytes@.take(i as int)),
        decreases bytes@.len() - i,
    {
        let ghost done = bytes@.take(i as int);
        let ghost more = bytes@.take(i + 1);
        proof {
            assert(more.drop_last() =~= done);
            assert(more.last() == bytes@[i as int]);
        }
        if i > 0 {
            out.append(", ");
        }
        out.append(digit(bytes[i] / 16));
        out.append(digit(bytes[i] % 16));
        assert(out@ =~= before + "["@ + hex_items_text(more));
        i += 1;
    }
    assert(bytes@.take(bytes@.len() as int) =~= bytes@);
    out.append("]");
    assert(out@ =~= before + hex_list_text(bytes@));
}

/// A digit is one character: `0` to `9`, then `a` to `f`.
pub proof fn law_digit(d: int)
    requires
        0 <= d < 16,
    ensures
        digit_text(d).len() == 1,
        digit_text(d)[0] as int == if d < 10 {
            48 + d
        } else {
            87 + d
        },
{
    reveal_strlit("0");
    reveal_strlit("1");
    reveal_strlit("2");
    reveal_strlit("3");
    reveal_strlit("4");
    reveal_strlit("5");
    reveal_strlit("6");
    reveal_strlit("7");
    reveal_strlit("8");
    reveal_strlit("9");
    reveal_strlit("a");
    reveal_strlit("b");
    reveal_strlit("c");
    reveal_strlit("d");
    reveal_strlit("e");
    reveal_strlit("f");
}

/// The `k`-th character from the end of a decimal number is its digit at the
/// `k`-th power of ten, and there are as many characters as the number needs.
pub proof fn law_decimal(n: nat)
    ensures
        decimal_text(n).len() >= 1,
        n < pow(10, decimal_text(n).len()),
        n > 0 ==> pow(10, (decimal_text(n).len() - 1) as nat) <= n,
        n == 0 ==> decimal_text(n).len() == 1,
        forall|k: nat|
            k < decimal_text(n).len() ==> (#[trigger] decimal_text(n)[decimal_text(n).len() - 1
                - k]) as int == 48 + (n as int / pow(10, k)) % 10,
    decreases n,
{
    let text = decimal_text(n);
    lemma_pow0(10);
    lemma_pow1(10);
    if n < 10 {
        law_digit(n as int);
        assert forall|k: nat| k < text.len() implies (#[trigger] text[text.len() - 1 - k]) as int
            == 48 + (n as int / pow(10, k)) % 10 by {
            assert(k == 0);
        }
    } else {
        let rest = decimal_text(n / 10);
        let len = rest.len();
        law_decimal(n / 10);
        law_digit((n % 10) as int);
        assert(text =~= rest.push(digit_text((n % 10) as int)[0]));
        assert(pow(10, (len + 1) as nat) == 10 * pow(10, len)) by {
            reveal(pow);
        }
        assert(pow(10, len) == 10 * pow(10, (len - 1) as nat)) by {
            reveal(pow);
        }
        assert forall|k: nat| k < text.len() implies (#[trigger] text[text.len() - 1 - k]) as int
            == 48 + (n as int / pow(10, k)) % 10 by {
            if k == 0 {
                assert(text[text.len() - 1] == digit_text((n % 10) as int)[0]);
            } else {
                let j = (k - 1) as nat;
                assert(text[text.len() - 1 - k] == rest[rest.len() - 1 - j]);
                assert(pow(10, k) == 10 * pow(10, j)) by {
                    reveal(pow);
                }
                lemma_pow_positive(10, j);
                lemma_div_denominator(n as int, 10, pow(10, j));
            }
        }
    }
}

/// Different numbers read differently.
pub proof fn law_decimal_tells_apart(a: nat, b: nat)
    ensures
        decimal_text(a) == decimal_text(b) <==> a == b,
    decreases a,
{
    if a != b && decimal_text(a) == decimal_text(b) {
        lemma_decimal_step(a);
        lemma_decimal_step(b);
        law_digit((a % 10) as int);
        law_digit((b % 10) as int);
        if a >= 10 && b >= 10 {
            law_decimal_tells_apart(a / 10, b / 10);
        } else {
            law_decimal(a);
            law_decimal(b);
            lemma_pow1(10);
        }
    }
}

/// A decimal number of several digits is its tenth followed by its last digit.
proof fn lemma_decimal_step(n: nat)
    ensures
        decimal_text(n).len() >= 1,
        decimal_text(n).last() == digit_text((n % 10) as int)[0],
        n >= 10 ==> decimal_text(n).drop_last() == decimal_text(n / 10),
        n < 10 ==> decimal_text(n).len() == 1,
        n >= 10 ==> decimal_text(n).len() >= 2,
    decreases n,
{
    law_digit((n % 10) as int);
    if n >= 10 {
        lemma_decimal_step(n / 10);
        assert(decimal_text(n).drop_last() =~= decimal_text(n / 10));
    }
}

/// A list of bytes reads as its bytes in order, two digits each, the higher half
/// first, with a comma and a space between them, in square brackets.
pub proof fn law_hex_list(bytes: Seq<u8>)
    ensures
        ({
            let text = hex_list_text(bytes);
            &&& text.len() == if bytes.len() == 0 {
                2
            } else {
                (4 * bytes.len()) as int
            }
            &&& text[0] == '['
            &&& text[text.len() - 1] == ']'
            &&& forall|i: int|
                0 <= i < bytes.len() ==> {
                    let byte = #[trigger] bytes[i] as int;
                    &&& text[4 * i + 1] as int == if byte / 16 < 10 {
                        48 + byte / 16
                    } else {
                        87 + byte / 16
                    }
                    &&& text[4 * i + 2] as int == if byte % 16 < 10 {
                        48 + byte % 16
                    } else {
                        87 + byte % 16
                    }
                    &&& i + 1 < bytes.len() ==> text[4 * i + 3] == ',' && text[4 * i + 4] == ' '
                }
        }),
{
    reveal_strlit("[");
    reveal_strlit("]");
    lemma_hex_items(bytes);
    let items = hex_items_text(bytes);
    let text = hex_list_text(bytes);
    assert forall|k: int| 0 <= k < items.len() implies text[k + 1] == items[k] by {}
    assert forall|i: int| 0 <= i < bytes.len() implies {
        let byte = #[trigger] bytes[i] as int;
        &&& text[4 * i + 1] as int == if byte / 16 < 10 {
            48 + byte / 16
        } else {
            87 + byte / 16
        }
        &&& text[4 * i + 2] as int == if byte % 16 < 10 {
            48 + byte % 16
        } else {
            87 + byte % 16
        }
        &&& i + 1 < bytes.len() ==> text[4 * i + 3] == ',' && text[4 * i + 4] == ' '
    } by {
        assert(text[4 * i + 1] == items[4 * i]);
        assert(text[4 * i + 2] == items[4 * i + 1]);
        if i + 1 < bytes.len() {
            assert(text[4 * i + 3] == items[4 * i + 2]);
            assert(text[4 * i + 4] == items[4 * i + 3]);
        }
    }
}

proof fn lemma_hex_items(bytes: Seq<u8>)
    ensures
        ({
            let text = hex_items_text(bytes);
            &&& text.len() == if bytes.len() == 0 {
                0
            } else {
                4 * bytes.len() - 2
            }
            &&& forall|i: int|
                0 <= i < bytes.len() ==> {
                    let byte = #[trigger] bytes[i] as int;
                    &&& text[4 * i] as int == if byte / 16 < 10 {
                        48 + byte / 16
                    } else {
                        87 + byte / 16
                    }
                    &&& text[4 * i + 1] as int == if byte % 16 < 10 {
                        48 + byte % 16
                    } else {
                        87 + byte % 16
                    }
                    &&& i + 1 < bytes.len() ==> text[4 * i + 2] == ',' && text[4 * i + 3] == ' '
                }
        }),
    decreases bytes.len(),
{
    reveal_strlit(", ");
    let text = hex_items_text(bytes);
    if bytes.len() > 0 {
        let last = bytes.last() as int;
        law_digit(last / 16);
        law_digit(last % 16);
        if bytes.len() > 1 {
            let rest = bytes.drop_last();
            lemma_hex_items(rest);
            let before = hex_items_text(rest);
            assert(text =~= before + ", "@ + hex_text(bytes.last()));
            assert forall|i: int| 0 <= i < bytes.len() implies {
                let byte = #[trigger] bytes[i] as int;
                &&& text[4 * i] as int == if byte / 16 < 10 {
                    48 + byte / 16
                } else {
                    87 + byte / 16
                }
                &&& text[4 * i + 1] as int == if byte % 16 < 10 {
                    48 + byte % 16
                } else {
                    87 + byte % 16
                }
                &&& i + 1 < bytes.len() ==> text[4 * i + 2] == ',' && text[4 * i + 3] == ' '
            } by {
                if i < rest.len() {
                    assert(rest[i] == bytes[i]);
                    assert(text[4 * i] == before[4 * i]);
                    assert(text[4 * i + 1] == before[4 * i + 1]);
                    if i + 1 < rest.len() {
                        assert(text[4 * i + 2] == before[4 * i + 2]);
                        assert(text[4 * i + 3] == before[4 * i + 3]);
                    } else {
                        assert(text[4 * i + 2] == ", "@[0]);
                        assert(text[4 * i + 3] == ", "@[1]);
                    }
                } else {
                    assert(text[4 * i] == hex_text(bytes.last())[0]);
                    assert(text[4 * i + 1] == hex_text(bytes.last())[1]);
                }
            }
        }
    }
}

}
