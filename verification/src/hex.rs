//! Upper-case hexadecimal rendering of bytes.

use vstd::prelude::*;

verus! {

/// The sixteen hexadecimal digits, indexed by nibble value.
pub const NIBBLE_STR: [char; 16] = [
    '0', '1', '2', '3', '4', '5', '6', '7', '8', '9', 'A', 'B', 'C', 'D', 'E', 'F',
];

/// The digit that stands for a nibble (a value below 16).
pub open spec fn hex_digit(nibble: u8) -> char {
    if nibble < 10 {
        (48 + nibble) as char
    } else {
        (55 + nibble) as char
    }
}

/// Two digits per byte, high nibble first.
pub open spec fn hex_of_bytes(bytes: Seq<u8>) -> Seq<char> {
    Seq::new(
        2 * bytes.len(),
        |i: int|
            if i % 2 == 0 {
                hex_digit(bytes[i / 2] / 16)
            } else {
                hex_digit(bytes[i / 2] % 16)
            },
    )
}

/// Appends `c` to `s`.
///
/// Trusted: `String::push`, which std documents as appending the given char
/// to the end of the string.
#[verifier::external_body]
pub(crate) fn push_char(s: &mut String, c: char)
    ensures
        final(s)@ == old(s)@.push(c),
{
    s.push(c);
}

fn nibble_char(nibble: u8) -> (c: char)
    requires
        nibble < 16,
    ensures
        c == hex_digit(nibble),
{
    let c = NIBBLE_STR[nibble as usize];
    assert(c == hex_digit(nibble)) by {
        assert(NIBBLE_STR@[nibble as int] == hex_digit(nibble));
    }
    c
}

/// Appends to `str` the upper-case hexadecimal rendering of `bytes`: two
/// digits per byte, high nibble first, with no separator.
pub fn bytes_to_string(str: &mut String, bytes: &[u8])
    ensures
        final(str)@ == old(str)@ + hex_of_bytes(bytes@),
{
    let ghost start = str@;
    let mut i: usize = 0;
    while i < bytes.len()
        invariant
            i <= bytes.len(),
            str@ == start + hex_of_bytes(bytes@.take(i as int)),
        decreases bytes.len() - i,
    {
        let byte = bytes[i];
        let left = byte >> 4;
        let right = byte & 0x0F;
        assert(left == byte / 16 && right == byte % 16 && left < 16 && right < 16)
            by (bit_vector)
            requires
                left == byte >> 4,
                right == byte & 0x0F,
        ;
        push_char(str, nibble_char(left));
        push_char(str, nibble_char(right));
        assert(hex_of_bytes(bytes@.take(i + 1)) =~= hex_of_bytes(bytes@.take(i as int)).push(
            hex_digit(byte / 16),
        ).push(hex_digit(byte % 16)));
        i = i + 1;
    }
    assert(bytes@.take(i as int) =~= bytes@);
}

/// The text shown for a capture: one line per packet, each its bytes in
/// hexadecimal followed by a line break.
pub open spec fn hex_lines(packets: Seq<Seq<u8>>) -> Seq<char>
    decreases packets.len(),
{
    if packets.len() == 0 {
        Seq::empty()
    } else {
        hex_lines(packets.drop_last()) + hex_of_bytes(packets.last()) + seq!['\n']
    }
}

/// The byte contents of a list of packets.
pub open spec fn packets_view(packets: Seq<Vec<u8>>) -> Seq<Seq<u8>> {
    packets.map_values(|p: Vec<u8>| p@)
}

/// Renders captured packets as the viewer shows them: for each packet in
/// order, its bytes in hexadecimal (see [`bytes_to_string`]) and a line break.
pub fn packets_to_hex_str(packets: &[Vec<u8>]) -> (text: String)
    ensures
        text@ == hex_lines(packets_view(packets@)),
{
    let mut text = String::new();
    let mut i: usize = 0;
    while i < packets.len()
        invariant
            i <= packets@.len(),
            text@ == hex_lines(packets_view(packets@.take(i as int))),
        decreases packets@.len() - i,
    {
        bytes_to_string(&mut text, packets[i].as_slice());
        push_char(&mut text, '\n');
        assert(packets_view(packets@.take(i + 1)).drop_last() =~= packets_view(
            packets@.take(i as int),
        ));
        assert(packets_view(packets@.take(i + 1)).last() == packets@[i as int]@);
        i = i + 1;
    }
    assert(packets@.take(i as int) =~= packets@);
    text
}

/// Law: rendering two byte strings one after the other gives the rendering of
/// their concatenation, so appending with [`bytes_to_string`] twice is
/// appending once the two together.
pub proof fn lemma_hex_concat(a: Seq<u8>, b: Seq<u8>)
    ensures
        hex_of_bytes(a + b) == hex_of_bytes(a) + hex_of_bytes(b),
{
    let lhs = hex_of_bytes(a + b);
    let rhs = hex_of_bytes(a) + hex_of_bytes(b);
    assert forall|i: int| 0 <= i < lhs.len() implies lhs[i] == rhs[i] by {
        if i >= 2 * a.len() {
            let j = i - 2 * a.len();
            assert(j / 2 == i / 2 - a.len());
            assert(j % 2 == i % 2);
        }
    }
    assert(lhs =~= rhs);
}

/// Law: a rendering holds only the digits `0`-`9` and `A`-`F`, never a line
/// break, so each packet of a capture takes exactly one line.
pub proof fn lemma_hex_digits_only(bytes: Seq<u8>)
    ensures
        forall|i: int|
            0 <= i < hex_of_bytes(bytes).len() ==> {
                let c = #[trigger] hex_of_bytes(bytes)[i];
                ('0' <= c <= '9') || ('A' <= c <= 'F')
            },
        !hex_of_bytes(bytes).contains('\n'),
{
}

/// Law: the rendering of a byte is two characters, so a capture's text is
/// twice as long as its bytes plus one line break per packet.
pub proof fn lemma_hex_lines_len(packets: Seq<Seq<u8>>)
    ensures
        hex_lines(packets).len() == packets.fold_left(0int, |acc: int, p: Seq<u8>| acc + 2 * p.len() + 1),
    decreases packets.len(),
{
    if packets.len() > 0 {
        lemma_hex_lines_len(packets.drop_last());
    }
}

/// The value of a hexadecimal digit `0`-`9` or `A`-`F`.
pub open spec fn hex_value(c: char) -> int {
    if c <= '9' {
        c as int - '0' as int
    } else {
        c as int - 'A' as int + 10
    }
}

/// Law: the rendering reads back: the two digits written for each byte are
/// its high nibble then its low nibble, so together they give the byte.
pub proof fn lemma_hex_reads_back(bytes: Seq<u8>)
    ensures
        hex_of_bytes(bytes).len() == 2 * bytes.len(),
        forall|i: int|
            0 <= i < bytes.len() ==> hex_value(hex_of_bytes(bytes)[2 * i]) * 16 + hex_value(
                hex_of_bytes(bytes)[2 * i + 1],
            ) == #[trigger] bytes[i],
{
    assert forall|i: int| 0 <= i < bytes.len() implies hex_value(hex_of_bytes(bytes)[2 * i]) * 16
        + hex_value(hex_of_bytes(bytes)[2 * i + 1]) == #[trigger] bytes[i] by {
        let b = bytes[i];
        assert((2 * i) / 2 == i && (2 * i) % 2 == 0);
        assert((2 * i + 1) / 2 == i && (2 * i + 1) % 2 == 1);
        assert(hex_value(hex_digit(b / 16)) == b / 16);
        assert(hex_value(hex_digit(b % 16)) == b % 16);
        assert((b / 16) * 16 + b % 16 == b) by (nonlinear_arith);
    }
}

/// Law: the text of two captures one after the other is the text of the
/// first followed by that of the second.
pub proof fn lemma_hex_lines_concat(a: Seq<Seq<u8>>, b: Seq<Seq<u8>>)
    ensures
        hex_lines(a + b) == hex_lines(a) + hex_lines(b),
    decreases b.len(),
{
    if b.len() == 0 {
        assert(a + b =~= a);
        assert(hex_lines(b) =~= Seq::<char>::empty());
    } else {
        lemma_hex_lines_concat(a, b.drop_last());
        assert((a + b).drop_last() =~= a + b.drop_last());
        assert((a + b).last() == b.last());
    }
}

/// Law: a capture of one packet shows as that packet's rendering followed by
/// a line break.
pub proof fn lemma_hex_lines_single(p: Seq<u8>)
    ensures
        hex_lines(seq![p]) == hex_of_bytes(p).push('\n'),
{
    let one = seq![p];
    assert(one.drop_last() =~= Seq::<Seq<u8>>::empty());
    assert(one.last() == p);
    assert(hex_lines(one.drop_last()) =~= Seq::<char>::empty());
    assert(hex_lines(one) =~= hex_of_bytes(p).push('\n'));
}

} // verus!
