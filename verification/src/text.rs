//! Numbers and bytes in readable form.

use vstd::prelude::*;

verus! {

/// The digits of base ten and base sixteen.
pub open spec fn digit_char(d: nat) -> char {
    if d < 10 {
        ('0' as u8 + d as u8) as char
    } else {
        ('a' as u8 + (d as u8 - 10)) as char
    }
}

/// A number in base ten, without leading zeros.
pub open spec fn decimal_text(n: nat) -> Seq<char>
    decreases n,
{
    if n < 10 {
        seq![digit_char(n)]
    } else {
        decimal_text(n / 10).push(digit_char(n % 10))
    }
}

/// Two lower-case hexadecimal digits for each byte.
pub open spec fn hex_text(bytes: Seq<u8>) -> Seq<char>
    decreases bytes.len(),
{
    if bytes.len() == 0 {
        Seq::empty()
    } else {
        let last = bytes.last() as nat;
        hex_text(bytes.drop_last()).push(digit_char(last / 16)).push(digit_char(last % 16))
    }
}

fn digit(d: u8) -> (r: &'static str)
    requires
        d < 16,
    ensures
        r@ == seq![digit_char(d as nat)],
{
    proof {
        reveal_strlit("0");
        reveal_strlit("1");
        reveal_strlit("2");
        reveal_strlit("3");
        reveal_strlit("4");
        reveal_strlit("5");
        reveal_strlit("6");
        reveal_strlit("7");
        reveal_strlit("8");
        reveal_strlit("9");
        reveal_strlit("a");
        reveal_strlit("b");
        reveal_strlit("c");
        reveal_strlit("d");
        reveal_strlit("e");
        reveal_strlit("f");
    }
    let r = match d {
        0 => "0",
        1 => "1",
        2 => "2",
        3 => "3",
        4 => "4",
        5 => "5",
        6 => "6",
        7 => "7",
        8 => "8",
        9 => "9",
        10 => "a",
        11 => "b",
        12 => "c",
        13 => "d",
        14 => "e",
        _ => "f",
    };
    proof {
        assert(r@ =~= seq![digit_char(d as nat)]);
    }
    r
}

/// Writes a number in base ten behind a text.
pub fn push_decimal(out: &mut String, n: u128)
    ensures
        final(out)@ == old(out)@ + decimal_text(n as nat),
    decreases n,
{
    if n >= 10 {
        push_decimal(out, n / 10);
    }
    out.append(digit((n % 10) as u8));
    proof {
        assert(out@ =~= old(out)@ + decimal_text(n as nat));
    }
}

/// Two hexadecimal digits for each of the bytes.
pub fn hex(bytes: &[u8]) -> (r: String)
    ensures
        r@ == hex_text(bytes@),
{
    let mut r: String = String::new();
    let mut i: usize = 0;
    while i < bytes.len()
        invariant
            i <= bytes@.len(),
            r@ == hex_text(bytes@.take(i as int)),
        decreases bytes.len() - i,
    {
        r.append(digit(bytes[i] / 16));
        r.append(digit(bytes[i] % 16));
        proof {
            assert(bytes@.take(i + 1).drop_last() =~= bytes@.take(i as int));
            assert(r@ =~= hex_text(bytes@.take(i + 1)));
        }
        i = i + 1;
    }
    proof {
        assert(bytes@.take(i as int) =~= bytes@);
    }
    r
}

/// Numbers in base ten, with commas between them.
pub open spec fn list_text(bytes: Seq<u8>) -> Seq<char>
    decreases bytes.len(),
{
    if bytes.len() == 0 {
        Seq::empty()
    } else if bytes.len() == 1 {
        decimal_text(bytes[0] as nat)
    } else {
        list_text(bytes.drop_last()) + ", "@ + decimal_text(bytes.last() as nat)
    }
}

/// Writes bytes in base ten behind a text, with commas between them.
pub fn push_list(out: &mut String, bytes: &[u8])
    ensures
        final(out)@ == old(out)@ + list_text(bytes@),
{
    let mut i: usize = 0;
    proof {
        assert(out@ =~= old(out)@ + list_text(bytes@.take(0)));
    }
    while i < bytes.len()
        invariant
            i <= bytes@.len(),
            out@ == old(out)@ + list_text(bytes@.take(i as int)),
        decreases bytes.len() - i,
    {
        if i > 0 {
            out.append(", ");
        }
        push_decimal(out, bytes[i] as u128);
        proof {
            assert(bytes@.take(i + 1).drop_last() =~= bytes@.take(i as int));
            assert(bytes@.take(i + 1).last() == bytes@[i as int]);
            assert(out@ =~= old(out)@ + list_text(bytes@.take(i + 1)));
        }
        i = i + 1;
    }
    proof {
        assert(bytes@.take(i as int) =~= bytes@);
    }
}

/// A number in base ten with its sign.
pub open spec fn signed_text(n: int) -> Seq<char> {
    if n < 0 {
        "-"@ + decimal_text((-n) as nat)
    } else {
        decimal_text(n as nat)
    }
}

/// Writes a signed number in base ten behind a text.
pub fn push_signed(out: &mut String, n: i128)
    ensures
        final(out)@ == old(out)@ + signed_text(n as int),
{
    if n < 0 {
        out.append("-");
        push_decimal(out, (-(n + 1)) as u128 + 1);
    } else {
        push_decimal(out, n as u128);
    }
    proof {
        assert(out@ =~= old(out)@ + signed_text(n as int));
    }
}

/// An amount in euros, with two digits for the cents.
pub open spec fn euros_text(cents: nat) -> Seq<char> {
    decimal_text(cents / 100) + "."@ + seq![
        digit_char(cents % 100 / 10),
        digit_char(cents % 10),
    ] + " \u{20ac}"@
}

/// An amount in euros with its sign.
pub open spec fn signed_euros_text(cents: int) -> Seq<char> {
    if cents < 0 {
        "-"@ + euros_text((-cents) as nat)
    } else {
        euros_text(cents as nat)
    }
}

/// Writes an amount in euros behind a text.
pub fn push_euros(out: &mut String, cents: u128)
    ensures
        final(out)@ == old(out)@ + euros_text(cents as nat),
{
    push_decimal(out, cents / 100);
    out.append(".");
    out.append(digit((cents % 100 / 10) as u8));
    out.append(digit((cents % 10) as u8));
    out.append(" \u{20ac}");
    proof {
        assert(out@ =~= old(out)@ + euros_text(cents as nat));
    }
}

/// An amount in euros.
pub fn euros(cents: u64) -> (r: String)
    ensures
        r@ == euros_text(cents as nat),
{
    let mut r: String = String::new();
    push_euros(&mut r, cents as u128);
    proof {
        assert(r@ =~= euros_text(cents as nat));
    }
    r
}

/// An amount in euros with its sign.
pub fn signed_euros(cents: i128) -> (r: String)
    ensures
        r@ == signed_euros_text(cents as int),
{
    let mut r: String = String::new();
    if cents < 0 {
        r.append("-");
        push_euros(&mut r, (-(cents + 1)) as u128 + 1);
    } else {
        push_euros(&mut r, cents as u128);
    }
    proof {
        assert(r@ =~= signed_euros_text(cents as int));
    }
    r
}

// ---------------------------------------------------------------------------
// The order of texts
// ---------------------------------------------------------------------------

/// Two runs of bytes agree before this place, and there the first one ends or
/// has the smaller byte.
pub open spec fn parts_at(a: Seq<u8>, b: Seq<u8>, place: int) -> bool {
    &&& 0 <= place <= a.len()
    &&& place < b.len()
    &&& forall|i: int| 0 <= i < place ==> a[i] == b[i]
    &&& place == a.len() || a[place] < b[place]
}

/// The first run of bytes stands before the second in a dictionary.
pub open spec fn bytes_precede(a: Seq<u8>, b: Seq<u8>) -> bool {
    exists|place: int| parts_at(a, b, place)
}

/// The first text stands before the second: texts are ordered by their UTF-8
/// bytes.
#[verifier::opaque]
pub open spec fn precedes(a: Seq<char>, b: Seq<char>) -> bool {
    bytes_precede(vstd::utf8::encode_utf8(a), vstd::utf8::encode_utf8(b))
}

/// Of three texts in order, the first stands before the last.
pub proof fn precedes_is_transitive(a: Seq<char>, b: Seq<char>, c: Seq<char>)
    requires
        precedes(a, b),
        precedes(b, c),
    ensures
        precedes(a, c),
{
    reveal(precedes);
    let (x, y, z) = (
        vstd::utf8::encode_utf8(a),
        vstd::utf8::encode_utf8(b),
        vstd::utf8::encode_utf8(c),
    );
    let i = choose|place: int| parts_at(x, y, place);
    let j = choose|place: int| parts_at(y, z, place);
    assert(parts_at(x, z, if i <= j { i } else { j }));
}

/// No text stands before itself.
pub proof fn precedes_is_irreflexive(a: Seq<char>)
    ensures
        !precedes(a, a),
{
    reveal(precedes);
}

proof fn lemma_bytes_total(a: Seq<u8>, b: Seq<u8>, place: int)
    requires
        0 <= place <= a.len(),
        place <= b.len(),
        forall|i: int| 0 <= i < place ==> a[i] == b[i],
    ensures
        bytes_precede(a, b) || bytes_precede(b, a) || a == b,
    decreases a.len() - place,
{
    if place < a.len() && place < b.len() && a[place] == b[place] {
        lemma_bytes_total(a, b, place + 1);
    } else if place == a.len() && place == b.len() {
        assert(a =~= b);
    } else {
        assert(parts_at(a, b, place) || parts_at(b, a, place));
    }
}

/// Of two different texts one stands before the other.
pub proof fn precedes_is_total(a: Seq<char>, b: Seq<char>)
    ensures
        precedes(a, b) || precedes(b, a) || a == b,
{
    reveal(precedes);
    lemma_bytes_total(vstd::utf8::encode_utf8(a), vstd::utf8::encode_utf8(b), 0);
    vstd::utf8::encode_utf8_decode_utf8(a);
    vstd::utf8::encode_utf8_decode_utf8(b);
}

/// Whether the first text stands before the second.
pub fn stands_before(a: &str, b: &str) -> (r: bool)
    ensures
        r == precedes(a@, b@),
{
    let x: &[u8] = a.as_bytes();
    let y: &[u8] = b.as_bytes();
    let mut place: usize = 0;
    while place < x.len() && place < y.len() && x[place] == y[place]
        invariant
            place <= x@.len(),
            place <= y@.len(),
            forall|i: int| 0 <= i < place ==> x@[i] == y@[i],
        decreases x.len() - place,
    {
        place += 1;
    }
    let r = place < y.len() && (place == x.len() || x[place] < y[place]);
    proof {
        reveal(precedes);
        if r {
            assert(parts_at(x@, y@, place as int));
        }
    }
    r
}

// ---------------------------------------------------------------------------
// What is written can be read back
// ---------------------------------------------------------------------------

/// The number that a text of decimal digits stands for.
pub open spec fn decimal_value(text: Seq<char>) -> int
    decreases text.len(),
{
    if text.len() == 0 {
        0
    } else {
        decimal_value(text.drop_last()) * 10 + (text.last() as int - '0' as int)
    }
}

/// A number in base ten consists of decimal digits, has no leading zero, and reads back as the
/// number.
pub proof fn lemma_decimal_text_reads_back(n: nat)
    ensures
        decimal_text(n).len() >= 1,
        decimal_value(decimal_text(n)) == n,
        forall|i: int|
            0 <= i < decimal_text(n).len() ==> '0' <= #[trigger] decimal_text(n)[i] <= '9',
        n > 0 ==> decimal_text(n)[0] != '0',
        n < 10 ==> decimal_text(n).len() == 1,
    decreases n,
{
    let text = decimal_text(n);
    let d = if n < 10 {
        n
    } else {
        n % 10
    };
    assert('0' <= digit_char(d) <= '9' && digit_char(d) as int - '0' as int == d);
    if n >= 10 {
        let rest = decimal_text(n / 10);
        lemma_decimal_text_reads_back(n / 10);
        assert(text.drop_last() =~= rest);
        assert(text[0] == rest[0]);
        assert forall|i: int| 0 <= i < text.len() implies '0' <= #[trigger] text[i] <= '9' by {
            if i < rest.len() {
                assert(text[i] == rest[i]);
            }
        }
    } else {
        assert(text.drop_last() =~= Seq::<char>::empty());
        assert(decimal_value(text.drop_last()) == 0);
    }
}

/// What a hexadecimal digit stands for.
pub open spec fn hex_value(c: char) -> int {
    if '0' <= c <= '9' {
        c as int - '0' as int
    } else {
        c as int - 'a' as int + 10
    }
}

/// Bytes in hexadecimal take two digits each, lower case, and each pair reads back as its
/// byte.
pub proof fn lemma_hex_text_reads_back(bytes: Seq<u8>, i: int)
    requires
        0 <= i < bytes.len(),
    ensures
        hex_text(bytes).len() == 2 * bytes.len(),
        16 * hex_value(hex_text(bytes)[2 * i]) + hex_value(hex_text(bytes)[2 * i + 1]) == bytes[i],
        '0' <= hex_text(bytes)[2 * i] <= '9' || 'a' <= hex_text(bytes)[2 * i] <= 'f',
        '0' <= hex_text(bytes)[2 * i + 1] <= '9' || 'a' <= hex_text(bytes)[2 * i + 1] <= 'f',
    decreases bytes.len(),
{
    let rest = bytes.drop_last();
    let text = hex_text(bytes);
    if rest.len() > 0 {
        lemma_hex_text_reads_back(rest, 0);
    } else {
        assert(hex_text(rest).len() == 0);
    }
    let (high, low) = (bytes.last() as nat / 16, bytes.last() as nat % 16);
    assert(hex_value(digit_char(high)) == high && hex_value(digit_char(low)) == low);
    if i < rest.len() {
        lemma_hex_text_reads_back(rest, i);
        assert(text[2 * i] == hex_text(rest)[2 * i]);
        assert(text[2 * i + 1] == hex_text(rest)[2 * i + 1]);
    }
}

/// An amount in euros reads back as its cents: the whole euros, a point, two digits for the
/// rest, and the sign of the currency. A negative amount has a minus in front.
pub proof fn lemma_euros_read_back(cents: nat)
    ensures
        ({
            let whole = decimal_text(cents / 100);
            let text = euros_text(cents);
            let n = whole.len() as int;
            &&& text.len() == n + 5
            &&& text.take(n) == whole
            &&& text[n] == '.'
            &&& '0' <= text[n + 1] <= '9'
            &&& '0' <= text[n + 2] <= '9'
            &&& 100 * decimal_value(text.take(n)) + 10 * (text[n + 1] as int - '0' as int) + (
            text[n + 2] as int - '0' as int) == cents
            &&& text[n + 3] == ' '
            &&& text[n + 4] == '\u{20ac}'
        }),
        signed_euros_text(cents as int) == euros_text(cents),
        cents > 0 ==> signed_euros_text(-(cents as int)) == "-"@ + euros_text(cents),
        signed_text(cents as int) == decimal_text(cents),
        cents > 0 ==> signed_text(-(cents as int)) == "-"@ + decimal_text(cents),
{
    reveal_strlit(".");
    reveal_strlit(" \u{20ac}");
    let whole = decimal_text(cents / 100);
    lemma_decimal_text_reads_back(cents / 100);
    assert(euros_text(cents).take(whole.len() as int) =~= whole);
    let (tens, ones) = (cents % 100 / 10, cents % 10);
    assert(digit_char(tens) as int - '0' as int == tens);
    assert(digit_char(ones) as int - '0' as int == ones);
    assert(cents == 100 * (cents / 100) + 10 * tens + ones);
}

/// A list of bytes is their numbers in base ten, with a comma and a blank before each but the
/// first.
pub proof fn lemma_list_grows_by_its_numbers(bytes: Seq<u8>, byte: u8)
    ensures
        list_text(Seq::empty()) == Seq::<char>::empty(),
        list_text(bytes.push(byte)) == if bytes.len() == 0 {
            decimal_text(byte as nat)
        } else {
            list_text(bytes) + ", "@ + decimal_text(byte as nat)
        },
{
    assert(bytes.push(byte).drop_last() =~= bytes);
}

/// Texts are ordered as their UTF-8 bytes are in a dictionary: at the first place where they
/// differ the smaller byte comes first, and a text stands before its continuations.
pub proof fn lemma_order_is_that_of_a_dictionary(a: Seq<char>, b: Seq<char>, place: int)
    requires
        ({
            let (x, y) = (vstd::utf8::encode_utf8(a), vstd::utf8::encode_utf8(b));
            &&& 0 <= place <= x.len()
            &&& place < y.len()
            &&& x.take(place) == y.take(place)
            &&& place == x.len() || x[place] < y[place]
        }),
    ensures
        precedes(a, b),
        !precedes(b, a),
{
    reveal(precedes);
    let (x, y) = (vstd::utf8::encode_utf8(a), vstd::utf8::encode_utf8(b));
    assert forall|i: int| 0 <= i < place implies x[i] == y[i] by {
        assert(x.take(place)[i] == y.take(place)[i]);
    }
    assert(parts_at(x, y, place));
    if precedes(b, a) {
        precedes_is_transitive(a, b, a);
        precedes_is_irreflexive(a);
    }
}

/// A text spells a number: decimal digits without a leading zero that read as it.
pub open spec fn spells(text: Seq<char>, n: nat) -> bool {
    &&& text.len() >= 1
    &&& forall|i: int| 0 <= i < text.len() ==> '0' <= #[trigger] text[i] <= '9'
    &&& n > 0 ==> text[0] != '0'
    &&& n == 0 ==> text.len() == 1
    &&& decimal_value(text) == n
}

/// A text spells bytes: two hexadecimal digits for each, which read as it.
pub open spec fn spells_bytes(text: Seq<char>, bytes: Seq<u8>) -> bool {
    &&& text.len() == 2 * bytes.len()
    &&& forall|i: int|
        0 <= i < bytes.len() ==> 16 * hex_value(text[2 * i]) + hex_value(text[2 * i + 1])
            == #[trigger] bytes[i]
}

/// A text spells an amount: the whole euros, a point, two digits for the cents that are left,
/// a blank and the sign of the currency.
pub open spec fn spells_euros(text: Seq<char>, cents: nat) -> bool {
    let n = text.len() - 5;
    &&& n >= 1
    &&& spells(text.take(n), cents / 100)
    &&& text[n] == '.'
    &&& '0' <= text[n + 1] <= '9'
    &&& '0' <= text[n + 2] <= '9'
    &&& 10 * (text[n + 1] as int - '0' as int) + (text[n + 2] as int - '0' as int) == cents % 100
    &&& text[n + 3] == ' '
    &&& text[n + 4] == '\u{20ac}'
}

/// Numbers, bytes and amounts are written so that they are spelled.
pub proof fn lemma_texts_spell(n: nat, bytes: Seq<u8>)
    ensures
        spells(decimal_text(n), n),
        spells_bytes(hex_text(bytes), bytes),
        spells_euros(euros_text(n), n),
{
    lemma_decimal_text_reads_back(n);
    lemma_decimal_text_reads_back(n / 100);
    lemma_euros_read_back(n);
    if bytes.len() > 0 {
        lemma_hex_text_reads_back(bytes, 0);
    }
    assert forall|i: int| 0 <= i < bytes.len() implies 16 * hex_value(hex_text(bytes)[2 * i])
        + hex_value(hex_text(bytes)[2 * i + 1]) == #[trigger] bytes[i] by {
        lemma_hex_text_reads_back(bytes, i);
    }
}

} // verus!
