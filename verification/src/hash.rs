//! Domain-separated hashing.
//!
//! Every hash in the protocol goes through [`tagged`] so that a signed message
//! of one kind, a transfer, say, can never be passed off as another, such as a
//! defunding order or a device certificate.

use sha2::{Digest, Sha256};
use vstd::prelude::*;
use vstd::arithmetic::power::*;
use vstd::utf8::*;

verus! {

/// The SHA-256 digest of a byte string.
pub uninterp spec fn sha256(data: Seq<u8>) -> Seq<u8>;

/// `Digest::digest` of the `sha2` crate's `Sha256`: the digest depends on the
/// bytes alone. What it is, is not stated.
#[verifier::external_body]
fn sha256_digest(data: &[u8]) -> (r: [u8; 32])
    ensures
        r@ == sha256(data@),
{
    Sha256::digest(data).into()
}

/// The parts, one after the other, each with its length in front.
pub open spec fn frame_parts(parts: Seq<Seq<u8>>) -> Seq<u8>
    decreases parts.len(),
{
    if parts.len() == 0 {
        Seq::empty()
    } else {
        crate::bytes::be_bytes(parts[0].len(), 8) + parts[0] + frame_parts(parts.skip(1))
    }
}

/// The byte string that is hashed: the tag and the parts, each with its length
/// in front.
pub open spec fn frame(tag: Seq<char>, parts: Seq<Seq<u8>>) -> Seq<u8> {
    let name = encode_utf8(tag);
    crate::bytes::be_bytes(name.len() as u32 as nat, 4) + name + frame_parts(parts)
}

/// The digest of a tagged message.
pub open spec fn tagged_digest(tag: Seq<char>, parts: Seq<Seq<u8>>) -> Seq<u8> {
    sha256(frame(tag, parts))
}

/// The bytes of each part.
pub open spec fn part_bytes(parts: Seq<&[u8]>) -> Seq<Seq<u8>> {
    parts.map_values(|part: &[u8]| part@)
}

proof fn lemma_frame_push(parts: Seq<Seq<u8>>, part: Seq<u8>)
    ensures
        frame_parts(parts.push(part)) == frame_parts(parts) + crate::bytes::be_bytes(part.len(), 8)
            + part,
    decreases parts.len(),
{
    let all = parts.push(part);
    if parts.len() == 0 {
        assert(all.skip(1) =~= Seq::<Seq<u8>>::empty());
        assert(frame_parts(all.skip(1)) =~= Seq::<u8>::empty());
        assert(all[0] == part);
        assert(frame_parts(all) =~= frame_parts(parts) + crate::bytes::be_bytes(part.len(), 8)
            + part);
    } else {
        lemma_frame_push(parts.skip(1), part);
        assert(all.skip(1) =~= parts.skip(1).push(part));
        assert(frame_parts(all) =~= frame_parts(parts) + crate::bytes::be_bytes(part.len(), 8)
            + part);
    }
}

/// Writes the parts behind a buffer, each with its length in front.
fn write_parts(out: &mut Vec<u8>, parts: &[&[u8]])
    ensures
        final(out)@ == old(out)@ + frame_parts(part_bytes(parts@)),
{
    let mut i: usize = 0;
    proof {
        assert(out@ =~= old(out)@ + frame_parts(part_bytes(parts@).take(0)));
    }
    while i < parts.len()
        invariant
            i <= parts@.len(),
            out@ == old(out)@ + frame_parts(part_bytes(parts@).take(i as int)),
        decreases parts.len() - i,
    {
        let part: &[u8] = parts[i];
        crate::bytes::append_bytes(out, &crate::bytes::u64_to_be_bytes(part.len() as u64));
        crate::bytes::append_bytes(out, part);
        proof {
            let all = part_bytes(parts@);
            assert(all.take(i + 1) =~= all.take(i as int).push(part@));
            lemma_frame_push(all.take(i as int), part@);
            assert(out@ =~= old(out)@ + frame_parts(all.take(i + 1)));
        }
        i = i + 1;
    }
    proof {
        assert(part_bytes(parts@).take(i as int) =~= part_bytes(parts@));
    }
}

/// `SHA-256(len(tag) || tag || len(part) || part ...)`, with a length in front of
/// the tag and of every part so that concatenation is unambiguous.
pub fn tagged(tag: &str, parts: &[&[u8]]) -> (r: [u8; 32])
    ensures
        r@ == tagged_digest(tag@, part_bytes(parts@)),
{
    let mut out: Vec<u8> = Vec::new();
    let name: &[u8] = tag.as_bytes();
    crate::bytes::append_bytes(&mut out, &crate::bytes::u32_to_be_bytes(name.len() as u32));
    crate::bytes::append_bytes(&mut out, name);
    write_parts(&mut out, parts);
    proof {
        assert(out@ =~= frame(tag@, part_bytes(parts@)));
    }
    sha256_digest(out.as_slice())
}

// ---------------------------------------------------------------------------
// Framing is unambiguous
// ---------------------------------------------------------------------------

/// Lengths that fit their prefix.
pub open spec fn frameable(tag: Seq<char>, parts: Seq<Seq<u8>>) -> bool {
    encode_utf8(tag).len() < 0x1_0000_0000 && forall|i: int|
        0 <= i < parts.len() ==> (#[trigger] parts[i]).len() < 0x1_0000_0000_0000_0000
}

/// The first field of a framed string can be read off it.
proof fn lemma_prefix(n: nat, m: nat, width: nat, a: Seq<u8>, b: Seq<u8>, s: Seq<u8>, t: Seq<u8>)
    requires
        n < pow(256, width),
        m < pow(256, width),
        a.len() == n,
        b.len() == m,
        crate::bytes::be_bytes(n, width) + a + s == crate::bytes::be_bytes(m, width) + b + t,
    ensures
        a == b,
        s == t,
{
    let x = crate::bytes::be_bytes(n, width) + a + s;
    let y = crate::bytes::be_bytes(m, width) + b + t;
    crate::bytes::lemma_be_value_of_bytes(n, width);
    crate::bytes::lemma_be_value_of_bytes(m, width);
    assert(x.take(width as int) =~= crate::bytes::be_bytes(n, width));
    assert(y.take(width as int) =~= crate::bytes::be_bytes(m, width));
    assert(x.subrange(width as int, (width + n) as int) =~= a);
    assert(y.subrange(width as int, (width + m) as int) =~= b);
    assert(x.skip((width + n) as int) =~= s);
    assert(y.skip((width + m) as int) =~= t);
}

proof fn lemma_frame_parts_injective(a: Seq<Seq<u8>>, b: Seq<Seq<u8>>)
    requires
        forall|i: int| 0 <= i < a.len() ==> (#[trigger] a[i]).len() < 0x1_0000_0000_0000_0000,
        forall|i: int| 0 <= i < b.len() ==> (#[trigger] b[i]).len() < 0x1_0000_0000_0000_0000,
        frame_parts(a) == frame_parts(b),
    ensures
        a == b,
    decreases a.len(),
{
    if a.len() == 0 || b.len() == 0 {
        if a.len() > 0 {
            crate::bytes::lemma_be_bytes_len(a[0].len(), 8);
            assert(frame_parts(a).len() >= 8);
        }
        if b.len() > 0 {
            crate::bytes::lemma_be_bytes_len(b[0].len(), 8);
            assert(frame_parts(b).len() >= 8);
        }
        assert(a =~= b);
    } else {
        assert(pow(256, 8) == 0x1_0000_0000_0000_0000) by {
            reveal_with_fuel(pow, 9);
        }
        lemma_prefix(
            a[0].len(),
            b[0].len(),
            8,
            a[0],
            b[0],
            frame_parts(a.skip(1)),
            frame_parts(b.skip(1)),
        );
        lemma_frame_parts_injective(a.skip(1), b.skip(1));
        assert(a =~= seq![a[0]] + a.skip(1));
        assert(b =~= seq![b[0]] + b.skip(1));
    }
}

/// Two messages are framed to the same byte string only if they have the same
/// tag and the same parts.
pub proof fn lemma_framing_is_unambiguous(
    tag: Seq<char>,
    parts: Seq<Seq<u8>>,
    other_tag: Seq<char>,
    other_parts: Seq<Seq<u8>>,
)
    requires
        frameable(tag, parts),
        frameable(other_tag, other_parts),
        frame(tag, parts) == frame(other_tag, other_parts),
    ensures
        tag == other_tag,
        parts == other_parts,
{
    assert(pow(256, 4) == 0x1_0000_0000) by {
        reveal_with_fuel(pow, 5);
    }
    lemma_prefix(
        encode_utf8(tag).len(),
        encode_utf8(other_tag).len(),
        4,
        encode_utf8(tag),
        encode_utf8(other_tag),
        frame_parts(parts),
        frame_parts(other_parts),
    );
    vstd::utf8::encode_utf8_decode_utf8(tag);
    vstd::utf8::encode_utf8_decode_utf8(other_tag);
    lemma_frame_parts_injective(parts, other_parts);
}

// ---------------------------------------------------------------------------
// Kinds of messages never collide
// ---------------------------------------------------------------------------

/// The tags that the protocol uses, one for each kind of message.
pub open spec fn tags() -> Seq<Seq<char>> {
    seq![
        "euro/fdh"@,
        "euro/device-certificate"@,
        "euro/transfer"@,
        "euro/funding-request"@,
        "euro/funding"@,
        "euro/defunding"@,
        "euro/token"@,
        "euro/lines"@,
        "euro/challenge"@,
    ]
}

proof fn lemma_tags()
    ensures
        forall|i: int| 0 <= i < 9 ==> 8 <= (#[trigger] tags()[i]).len() <= 23,
        forall|i: int| 0 <= i < 9 ==> is_ascii_chars(#[trigger] tags()[i]),
        forall|i: int, j: int|
            0 <= i < 9 && 0 <= j < 9 && i != j ==> #[trigger] tags()[i] != #[trigger] tags()[j],
{
    reveal_strlit("euro/fdh");
    reveal_strlit("euro/device-certificate");
    reveal_strlit("euro/transfer");
    reveal_strlit("euro/funding-request");
    reveal_strlit("euro/funding");
    reveal_strlit("euro/defunding");
    reveal_strlit("euro/token");
    reveal_strlit("euro/lines");
    reveal_strlit("euro/challenge");
    assert forall|i: int, j: int| 0 <= i < 9 && 0 <= j < 9 && i != j implies #[trigger] tags()[i]
        != #[trigger] tags()[j] by {
        // Length, or else the sixth character, tells the tags apart.
        assert(tags()[i].len() != tags()[j].len() || tags()[i][5] != tags()[j][5]);
    }
}

/// A tag of the protocol fits its length prefix.
pub proof fn lemma_tag_fits(i: int)
    requires
        0 <= i < 9,
    ensures
        encode_utf8(tags()[i]).len() < 0x1_0000_0000,
{
    lemma_tags();
    is_ascii_chars_encode_utf8(tags()[i]);
}

/// A message of one kind is never framed like a message of another, so a
/// signature on one cannot be passed off as a signature on the other.
pub proof fn lemma_kinds_never_collide(
    i: int,
    j: int,
    parts: Seq<Seq<u8>>,
    other_parts: Seq<Seq<u8>>,
)
    requires
        0 <= i < 9,
        0 <= j < 9,
        i != j,
        frameable(tags()[i], parts),
        frameable(tags()[j], other_parts),
    ensures
        frame(tags()[i], parts) != frame(tags()[j], other_parts),
{
    lemma_tags();
    if frame(tags()[i], parts) == frame(tags()[j], other_parts) {
        lemma_framing_is_unambiguous(tags()[i], parts, tags()[j], other_parts);
    }
}

// ---------------------------------------------------------------------------
// A digest covers the whole message
// ---------------------------------------------------------------------------

/// The tag stands in front with its length in four bytes, and each further part is
/// appended with its length in eight bytes.
pub proof fn lemma_frame_layout(tag: Seq<char>, parts: Seq<Seq<u8>>, part: Seq<u8>)
    requires
        encode_utf8(tag).len() < 0x1_0000_0000,
    ensures
        frame(tag, Seq::empty()) == crate::bytes::be_bytes(encode_utf8(tag).len(), 4)
            + encode_utf8(tag),
        frame(tag, parts.push(part)) == frame(tag, parts) + crate::bytes::be_bytes(part.len(), 8)
            + part,
        tagged_digest(tag, parts) == sha256(frame(tag, parts)),
{
    lemma_frame_push(parts, part);
    assert(frame_parts(Seq::empty()) =~= Seq::<u8>::empty());
    assert(frame(tag, Seq::empty()) =~= crate::bytes::be_bytes(encode_utf8(tag).len(), 4)
        + encode_utf8(tag));
    assert(frame(tag, parts.push(part)) =~= frame(tag, parts) + crate::bytes::be_bytes(
        part.len(),
        8,
    ) + part);
}

/// Two messages that differ in their tag or in any part have different digests, unless
/// SHA-256 itself collides on what is hashed for them.
pub proof fn lemma_digest_covers_the_message(
    tag: Seq<char>,
    parts: Seq<Seq<u8>>,
    other_tag: Seq<char>,
    other_parts: Seq<Seq<u8>>,
) -> (r: (Seq<u8>, Seq<u8>))
    requires
        frameable(tag, parts),
        frameable(other_tag, other_parts),
        tag != other_tag || parts != other_parts,
        tagged_digest(tag, parts) == tagged_digest(other_tag, other_parts),
    ensures
        r.0 != r.1,
        sha256(r.0) == sha256(r.1),
{
    let a = frame(tag, parts);
    let b = frame(other_tag, other_parts);
    if a == b {
        lemma_framing_is_unambiguous(tag, parts, other_tag, other_parts);
    }
    (a, b)
}

} // verus!
