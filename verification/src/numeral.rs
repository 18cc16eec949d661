//! Decimal numerals on the wire: the digit string of a number, its length
//! (the ASCII field width), and parsing a digit token back to a number.
use vstd::prelude::*;
use crate::text::push_char;

verus! {

pub open spec fn is_digit(b: u8) -> bool {
    48 <= b && b <= 57
}

/// The decimal digit string of `n`, as ASCII bytes, most significant first.
pub open spec fn dec_bytes(n: nat) -> Seq<u8>
    decreases n,
{
    if n < 10 {
        seq![(n + 48) as u8]
    } else {
        dec_bytes(n / 10).push(((n % 10) + 48) as u8)
    }
}

/// The decimal digit string of `n`, as characters.
pub open spec fn dec_chars(n: nat) -> Seq<char>
    decreases n,
{
    if n < 10 {
        seq![((n + 48) as u8) as char]
    } else {
        dec_chars(n / 10).push((((n % 10) + 48) as u8) as char)
    }
}

/// How many decimal digits `n` has.
pub open spec fn dec_len(n: nat) -> nat
    decreases n,
{
    if n < 10 {
        1
    } else {
        1 + dec_len(n / 10)
    }
}

/// The number a digit string stands for (meaningful only when every byte is
/// a digit).
pub open spec fn token_to_nat(t: Seq<u8>) -> nat
    decreases t.len(),
{
    if t.len() == 0 {
        0
    } else {
        (token_to_nat(t.drop_last()) * 10 + (t.last() - 48)) as nat
    }
}

pub open spec fn all_digits(t: Seq<u8>) -> bool {
    forall|i: int| 0 <= i < t.len() ==> is_digit(#[trigger] t[i])
}

/// Whether a token is a readable non-negative integer no greater than
/// `bound`: non-empty, digits only, and in range.
pub open spec fn token_parses(t: Seq<u8>, bound: nat) -> bool {
    t.len() > 0 && all_digits(t) && token_to_nat(t) <= bound
}

pub proof fn lemma_dec_bytes(n: nat)
    ensures
        all_digits(dec_bytes(n)),
        dec_bytes(n).len() == dec_len(n),
        token_to_nat(dec_bytes(n)) == n,
    decreases n,
{
    if n < 10 {
        let t = dec_bytes(n);
        assert(t.drop_last() =~= Seq::<u8>::empty());
        assert(token_to_nat(t.drop_last()) == 0);
        assert(t.last() == (n + 48) as u8);
        assert(token_to_nat(t) == n);
    } else {
        lemma_dec_bytes(n / 10);
        let t = dec_bytes(n);
        assert(t.drop_last() =~= dec_bytes(n / 10));
        assert(token_to_nat(t) == (n / 10) * 10 + n % 10);
        vstd::arithmetic::div_mod::lemma_fundamental_div_mod(n as int, 10);
    }
}

pub proof fn lemma_dec_chars_len(n: nat)
    ensures
        dec_chars(n).len() == dec_len(n),
    decreases n,
{
    if n >= 10 {
        lemma_dec_chars_len(n / 10);
    }
}

pub proof fn lemma_dec_len_mono(a: nat, b: nat)
    requires
        a <= b,
    ensures
        dec_len(a) <= dec_len(b),
    decreases b,
{
    if b >= 10 && a >= 10 {
        vstd::arithmetic::div_mod::lemma_div_is_ordered(a as int, b as int, 10);
        lemma_dec_len_mono(a / 10, b / 10);
    }
}

/// Appends the decimal digits of `n` to a byte buffer.
pub fn push_dec(out: &mut Vec<u8>, n: u64)
    ensures
        final(out)@ == old(out)@ + dec_bytes(n as nat),
    decreases n,
{
    if n >= 10 {
        push_dec(out, n / 10);
    }
    let d: u8 = ((n % 10) as u8) + 48;
    out.push(d);
    proof {
        assert(out@ =~= old(out)@ + dec_bytes(n as nat));
    }
}

/// Appends the decimal digits of `n` to a string.
pub fn push_dec_str(out: &mut String, n: u64)
    ensures
        final(out)@ == old(out)@ + dec_chars(n as nat),
    decreases n,
{
    if n >= 10 {
        push_dec_str(out, n / 10);
    }
    let c: char = (((n % 10) as u8) + 48) as char;
    push_char(out, c);
    proof {
        assert(out@ =~= old(out)@ + dec_chars(n as nat));
    }
}

/// The number of decimal digits of a 16-bit value.
pub fn dec_len16(v: u16) -> (n: usize)
    ensures
        n == dec_len(v as nat),
{
    if v < 10 {
        1
    } else if v < 100 {
        assert(dec_len((v / 10) as nat) == 1);
        2
    } else if v < 1000 {
        assert(dec_len((v / 100) as nat) == 1);
        assert(dec_len((v / 10) as nat) == 2);
        3
    } else if v < 10000 {
        assert(dec_len((v / 1000) as nat) == 1);
        assert(dec_len((v / 100) as nat) == 2);
        assert(dec_len((v / 10) as nat) == 3);
        4
    } else {
        assert(dec_len((v / 10000) as nat) == 1);
        assert(dec_len((v / 1000) as nat) == 2);
        assert(dec_len((v / 100) as nat) == 3);
        assert(dec_len((v / 10) as nat) == 4);
        5
    }
}

/// Reads the token `bytes[from..to]` as a non-negative decimal integer no
/// greater than `bound`, or reports that it is not one.
pub fn parse_token(bytes: &Vec<u8>, from: usize, to: usize, bound: u64) -> (r: Option<u64>)
    requires
        from <= to <= bytes@.len(),
    ensures
        match r {
            Some(v) => token_parses(bytes@.subrange(from as int, to as int), bound as nat)
                && v as nat == token_to_nat(bytes@.subrange(from as int, to as int)),
            None => !token_parses(bytes@.subrange(from as int, to as int), bound as nat),
        },
{
    let ghost tok = bytes@.subrange(from as int, to as int);
    if from == to {
        return None;
    }
    let mut acc: u64 = 0;
    let mut fits: bool = true;
    let mut i: usize = from;
    while i < to
        invariant
            from <= i <= to <= bytes@.len(),
            tok == bytes@.subrange(from as int, to as int),
            all_digits(tok.subrange(0, i - from)),
            fits ==> acc <= bound && acc as nat == token_to_nat(tok.subrange(0, i - from)),
            !fits ==> token_to_nat(tok.subrange(0, i - from)) > bound,
        decreases to - i,
    {
        let b = bytes[i];
        if b < 48 || b > 57 {
            proof {
                assert(tok[i - from] == b);
                assert(!all_digits(tok));
            }
            return None;
        }
        let d: u64 = (b - 48) as u64;
        proof {
            assert(tok.subrange(0, i - from + 1).drop_last() =~= tok.subrange(0, i - from));
            assert(tok.subrange(0, i - from + 1).last() == b);
        }
        let ghost prev = token_to_nat(tok.subrange(0, i - from));
        assert(token_to_nat(tok.subrange(0, i - from + 1)) == prev * 10 + d);
        if fits && d <= bound && acc <= (bound - d) / 10 {
            proof {
                vstd::arithmetic::div_mod::lemma_fundamental_div_mod((bound - d) as int, 10);
                assert(acc * 10 <= bound - d) by (nonlinear_arith)
                    requires
                        acc <= (bound - d) / 10,
                        (bound - d) == 10 * ((bound - d) / 10) + (bound - d) % 10,
                        0 <= (bound - d) % 10 < 10,
                ;
            }
            acc = acc * 10 + d;
        } else {
            proof {
                if fits {
                    vstd::arithmetic::div_mod::lemma_fundamental_div_mod((bound - d) as int, 10);
                    if d <= bound {
                        assert(acc * 10 > bound - d) by (nonlinear_arith)
                            requires
                                acc > (bound - d) / 10,
                                (bound - d) == 10 * ((bound - d) / 10) + (bound - d) % 10,
                                0 <= (bound - d) % 10 < 10,
                        ;
                    }
                    assert(prev * 10 + d > bound);
                } else {
                    assert(prev > bound);
                    assert(prev * 10 + d > bound) by (nonlinear_arith)
                        requires
                            prev > bound,
                    ;
                }
            }
            fits = false;
        }
        i = i + 1;
    }
    proof {
        assert(tok.subrange(0, to - from) =~= tok);
    }
    if fits {
        Some(acc)
    } else {
        None
    }
}

} // verus!
