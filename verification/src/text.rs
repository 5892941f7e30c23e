//! Text renderings of byte strings and numbers used as keys and labels.

use vstd::prelude::*;

verus! {

/// The lowercase hexadecimal digit for `d` (below 16).
pub open spec fn hex_char(d: int) -> char {
    if d == 0 { '0' } else if d == 1 { '1' } else if d == 2 { '2' } else if d == 3 { '3' }
    else if d == 4 { '4' } else if d == 5 { '5' } else if d == 6 { '6' } else if d == 7 { '7' }
    else if d == 8 { '8' } else if d == 9 { '9' } else if d == 10 { 'a' } else if d == 11 { 'b' }
    else if d == 12 { 'c' } else if d == 13 { 'd' } else if d == 14 { 'e' } else { 'f' }
}

/// A byte as two lowercase hexadecimal digits.
pub open spec fn hex2(b: u8) -> Seq<char> {
    seq![hex_char((b / 16) as int), hex_char((b % 16) as int)]
}

/// A byte in lowercase hexadecimal without leading zero.
pub open spec fn hex_min(b: u8) -> Seq<char> {
    if b < 16 {
        seq![hex_char(b as int)]
    } else {
        hex2(b)
    }
}

/// Every byte as two lowercase hexadecimal digits, concatenated.
pub open spec fn hex_string(s: Seq<u8>) -> Seq<char>
    decreases s.len(),
{
    if s.len() == 0 {
        Seq::empty()
    } else {
        hex_string(s.drop_last()) + hex2(s.last())
    }
}

/// Every byte in hexadecimal without leading zero, concatenated.
pub open spec fn hex_min_string(s: Seq<u8>) -> Seq<char>
    decreases s.len(),
{
    if s.len() == 0 {
        Seq::empty()
    } else {
        hex_min_string(s.drop_last()) + hex_min(s.last())
    }
}

/// The decimal digits of `n`.
pub open spec fn dec_string(n: nat) -> Seq<char>
    decreases n,
{
    if n < 10 {
        seq![hex_char(n as int)]
    } else {
        dec_string(n / 10).push(hex_char((n % 10) as int))
    }
}

/// Appends the hexadecimal digit `d`.
pub fn push_hex_digit(s: &mut String, d: u8)
    requires
        d < 16,
    ensures
        final(s)@ == old(s)@.push(hex_char(d as int)),
{
    let ghost before = s@;
    match d {
        0 => { s.append("0"); proof { reveal_strlit("0"); } }
        1 => { s.append("1"); proof { reveal_strlit("1"); } }
        2 => { s.append("2"); proof { reveal_strlit("2"); } }
        3 => { s.append("3"); proof { reveal_strlit("3"); } }
        4 => { s.append("4"); proof { reveal_strlit("4"); } }
        5 => { s.append("5"); proof { reveal_strlit("5"); } }
        6 => { s.append("6"); proof { reveal_strlit("6"); } }
        7 => { s.append("7"); proof { reveal_strlit("7"); } }
        8 => { s.append("8"); proof { reveal_strlit("8"); } }
        9 => { s.append("9"); proof { reveal_strlit("9"); } }
        10 => { s.append("a"); proof { reveal_strlit("a"); } }
        11 => { s.append("b"); proof { reveal_strlit("b"); } }
        12 => { s.append("c"); proof { reveal_strlit("c"); } }
        13 => { s.append("d"); proof { reveal_strlit("d"); } }
        14 => { s.append("e"); proof { reveal_strlit("e"); } }
        _ => { s.append("f"); proof { reveal_strlit("f"); } }
    }
    proof {
        assert(s@ =~= before.push(hex_char(d as int)));
    }
}

/// Appends `b` as two hexadecimal digits.
pub fn push_hex_byte(s: &mut String, b: u8)
    ensures
        final(s)@ == old(s)@ + hex2(b),
{
    push_hex_digit(s, b / 16);
    push_hex_digit(s, b % 16);
    proof {
        assert(final(s)@ =~= old(s)@ + hex2(b));
    }
}

/// Appends `b` in hexadecimal without leading zero.
pub fn push_hex_min(s: &mut String, b: u8)
    ensures
        final(s)@ == old(s)@ + hex_min(b),
{
    if b < 16 {
        push_hex_digit(s, b);
        proof {
            assert(final(s)@ =~= old(s)@ + hex_min(b));
        }
    } else {
        push_hex_byte(s, b);
    }
}

/// Every byte as two lowercase hexadecimal digits.
pub fn hex_encode(bytes: &[u8]) -> (r: String)
    ensures
        r@ == hex_string(bytes@),
{
    let mut r = String::new();
    let mut i: usize = 0;
    while i < bytes.len()
        invariant
            i <= bytes@.len(),
            r@ == hex_string(bytes@.take(i as int)),
        decreases bytes@.len() - i,
    {
        proof {
            assert(bytes@.take(i + 1).drop_last() =~= bytes@.take(i as int));
        }
        push_hex_byte(&mut r, bytes[i]);
        i = i + 1;
    }
    proof {
        assert(bytes@.take(bytes@.len() as int) =~= bytes@);
    }
    r
}

/// Appends the bytes in hexadecimal without leading zeros.
pub fn push_hex_min_string(s: &mut String, bytes: &[u8])
    ensures
        final(s)@ == old(s)@ + hex_min_string(bytes@),
{
    let ghost start = s@;
    let mut i: usize = 0;
    while i < bytes.len()
        invariant
            i <= bytes@.len(),
            s@ == start + hex_min_string(bytes@.take(i as int)),
        decreases bytes@.len() - i,
    {
        proof {
            assert(bytes@.take(i + 1).drop_last() =~= bytes@.take(i as int));
        }
        push_hex_min(s, bytes[i]);
        i = i + 1;
        proof {
            assert(s@ =~= start + hex_min_string(bytes@.take(i as int)));
        }
    }
    proof {
        assert(bytes@.take(bytes@.len() as int) =~= bytes@);
    }
}

/// Appends the decimal digits of `n`.
pub fn push_decimal(s: &mut String, n: u64)
    ensures
        final(s)@ == old(s)@ + dec_string(n as nat),
{
    let ghost start = s@;
    let mut digits: Vec<u8> = Vec::new();
    let mut m: u64 = n;
    let ghost mut tail: Seq<char> = Seq::empty();
    loop
        invariant
            dec_string(n as nat) == dec_string(m as nat) + tail,
            tail.len() == digits@.len(),
            forall|j: int| 0 <= j < digits@.len() ==> digits@[j] < 10,
            forall|j: int| 0 <= j < digits@.len() ==> #[trigger] tail[j] == hex_char(digits@[digits@.len() - 1 - j] as int),
        ensures
            m < 10,
            dec_string(n as nat) == dec_string(m as nat) + tail,
            tail.len() == digits@.len(),
            forall|j: int| 0 <= j < digits@.len() ==> digits@[j] < 10,
            forall|j: int| 0 <= j < digits@.len() ==> #[trigger] tail[j] == hex_char(digits@[digits@.len() - 1 - j] as int),
        decreases m,
    {
        if m < 10 {
            break;
        }
        let d = (m % 10) as u8;
        proof {
            assert(dec_string(m as nat) == dec_string((m / 10) as nat).push(hex_char(d as int)));
        }
        let ghost old_tail = tail;
        let ghost old_digits = digits@;
        digits.push(d);
        proof {
            tail = seq![hex_char(d as int)] + old_tail;
            assert(dec_string(n as nat) =~= dec_string((m / 10) as nat) + tail);
            assert forall|j: int| 0 <= j < digits@.len() implies #[trigger] tail[j] == hex_char(digits@[digits@.len() - 1 - j] as int) by {
                if j > 0 {
                    assert(tail[j] == old_tail[j - 1]);
                }
            }
        }
        m = m / 10;
    }
    push_hex_digit(s, m as u8);
    proof {
        assert(s@ =~= start + dec_string(m as nat));
    }
    let mut k: usize = digits.len();
    while k > 0
        invariant
            k <= digits@.len(),
            tail.len() == digits@.len(),
            forall|j: int| 0 <= j < digits@.len() ==> digits@[j] < 10,
            forall|j: int| 0 <= j < digits@.len() ==> #[trigger] tail[j] == hex_char(digits@[digits@.len() - 1 - j] as int),
            s@ == start + dec_string(m as nat) + tail.take(digits@.len() - k),
        decreases k,
    {
        k = k - 1;
        let ghost before = s@;
        push_hex_digit(s, digits[k]);
        proof {
            let t = digits@.len() - 1 - k;
            assert(tail[t] == hex_char(digits@[k as int] as int));
            assert(tail.take(t + 1) =~= tail.take(t).push(tail[t]));
            assert(s@ =~= start + dec_string(m as nat) + tail.take(digits@.len() - k));
        }
    }
    proof {
        assert(tail.take(tail.len() as int) =~= tail);
        assert(s@ =~= old(s)@ + dec_string(n as nat));
    }
}

/// Two hexadecimal digits per byte.
pub proof fn lemma_hex_string_len(s: Seq<u8>)
    ensures
        hex_string(s).len() == 2 * s.len(),
    decreases s.len(),
{
    if s.len() > 0 {
        lemma_hex_string_len(s.drop_last());
    }
}

/// Hexadecimal and decimal digits are never a colon.
pub proof fn lemma_hex_string_no_colon(s: Seq<u8>)
    ensures
        forall|i: int| 0 <= i < hex_string(s).len() ==> hex_string(s)[i] != ':',
    decreases s.len(),
{
    if s.len() > 0 {
        lemma_hex_string_no_colon(s.drop_last());
        let a = hex_string(s.drop_last());
        assert forall|i: int| 0 <= i < hex_string(s).len() implies hex_string(s)[i] != ':' by {
            if i >= a.len() {
                assert(hex_string(s)[i] == hex2(s.last())[i - a.len()]);
            } else {
                assert(hex_string(s)[i] == a[i]);
            }
        }
    }
}

/// Decimal digits are never a colon, and there is at least one.
pub proof fn lemma_dec_string_no_colon(n: nat)
    ensures
        dec_string(n).len() >= 1,
        n >= 10 ==> dec_string(n).len() >= 2,
        forall|i: int| 0 <= i < dec_string(n).len() ==> dec_string(n)[i] != ':',
    decreases n,
{
    if n >= 10 {
        lemma_dec_string_no_colon(n / 10);
        let a = dec_string(n / 10);
        assert forall|i: int| 0 <= i < dec_string(n).len() implies dec_string(n)[i] != ':' by {
            if i < a.len() {
                assert(dec_string(n)[i] == a[i]);
            }
        }
    }
}

proof fn lemma_hex_char_injective(a: int, b: int)
    requires
        0 <= a < 16,
        0 <= b < 16,
        hex_char(a) == hex_char(b),
    ensures
        a == b,
{
}

/// Different byte strings have different hexadecimal renderings.
pub proof fn lemma_hex_string_injective(a: Seq<u8>, b: Seq<u8>)
    requires
        hex_string(a) == hex_string(b),
    ensures
        a == b,
    decreases a.len(),
{
    lemma_hex_string_len(a);
    lemma_hex_string_len(b);
    if a.len() > 0 {
        let ha = hex_string(a.drop_last());
        let hb = hex_string(b.drop_last());
        lemma_hex_string_len(a.drop_last());
        lemma_hex_string_len(b.drop_last());
        assert(hex_string(a)[ha.len() as int] == hex_char((a.last() / 16) as int));
        assert(hex_string(b)[hb.len() as int] == hex_char((b.last() / 16) as int));
        assert(hex_string(a)[ha.len() as int + 1] == hex_char((a.last() % 16) as int));
        assert(hex_string(b)[hb.len() as int + 1] == hex_char((b.last() % 16) as int));
        lemma_hex_char_injective((a.last() / 16) as int, (b.last() / 16) as int);
        lemma_hex_char_injective((a.last() % 16) as int, (b.last() % 16) as int);
        assert(ha =~= hex_string(a).subrange(0, ha.len() as int));
        assert(hb =~= hex_string(b).subrange(0, hb.len() as int));
        lemma_hex_string_injective(a.drop_last(), b.drop_last());
        assert(a =~= a.drop_last().push(a.last()));
        assert(b =~= b.drop_last().push(b.last()));
    }
}

/// Different numbers have different decimal renderings.
pub proof fn lemma_dec_string_injective(m: nat, n: nat)
    requires
        dec_string(m) == dec_string(n),
    ensures
        m == n,
    decreases m,
{
    lemma_dec_string_no_colon(m);
    lemma_dec_string_no_colon(n);
    if m < 10 && n < 10 {
        assert(dec_string(m) == seq![hex_char(m as int)]);
        assert(dec_string(n) == seq![hex_char(n as int)]);
        assert(dec_string(m)[0] == hex_char(m as int));
        assert(dec_string(n)[0] == hex_char(n as int));
        lemma_hex_char_injective(m as int, n as int);
    } else if m >= 10 && n >= 10 {
        let a = dec_string(m / 10);
        let b = dec_string(n / 10);
        assert(dec_string(m).last() == hex_char((m % 10) as int));
        assert(dec_string(n).last() == hex_char((n % 10) as int));
        lemma_hex_char_injective((m % 10) as int, (n % 10) as int);
        assert(a =~= dec_string(m).drop_last());
        assert(b =~= dec_string(n).drop_last());
        lemma_dec_string_injective(m / 10, n / 10);
    }
}

} // verus!
