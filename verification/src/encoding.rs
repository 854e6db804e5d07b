//! URL-safe Base64 without padding, as logo keys are written.

use vstd::prelude::*;

verus! {

/// The URL-safe Base64 digit for a six-bit value: `A`-`Z`, `a`-`z`, `0`-`9`,
/// `-`, `_`.
pub open spec fn b64_digit(v: int) -> char {
    if v < 26 {
        (('A' as int) + v) as char
    } else if v < 52 {
        (('a' as int) + v - 26) as char
    } else if v < 62 {
        (('0' as int) + v - 52) as char
    } else if v == 62 {
        '-'
    } else {
        '_'
    }
}

/// URL-safe Base64 without padding: each group of three bytes becomes four
/// digits; a final single byte becomes two digits, a final pair three.
pub open spec fn base64_url(b: Seq<u8>) -> Seq<char>
    decreases b.len(),
{
    if b.len() == 0 {
        seq![]
    } else {
        let x = b[0] as int;
        let y = if b.len() > 1 { b[1] as int } else { 0 };
        let z = if b.len() > 2 { b[2] as int } else { 0 };
        if b.len() == 1 {
            seq![b64_digit(x / 4), b64_digit((x % 4) * 16)]
        } else if b.len() == 2 {
            seq![b64_digit(x / 4), b64_digit((x % 4) * 16 + y / 16), b64_digit((y % 16) * 4)]
        } else {
            seq![
                b64_digit(x / 4),
                b64_digit((x % 4) * 16 + y / 16),
                b64_digit((y % 16) * 4 + z / 64),
                b64_digit(z % 64),
            ] + base64_url(b.skip(3))
        }
    }
}

/// Length of the encoding: four digits per full group, two or three for a
/// partial one.
pub proof fn lemma_base64_len(b: Seq<u8>)
    ensures
        base64_url(b).len() == 4 * (b.len() / 3) + (if b.len() % 3 == 0 {
            0int
        } else {
            (b.len() % 3 + 1) as int
        }),
    decreases b.len(),
{
    if b.len() >= 3 {
        lemma_base64_len(b.skip(3));
    }
}

/// Different six-bit values have different digits.
pub proof fn lemma_digit_injective(v: int, w: int)
    requires
        0 <= v < 64,
        0 <= w < 64,
        b64_digit(v) == b64_digit(w),
    ensures
        v == w,
{
    let cv = b64_digit(v);
    let cw = b64_digit(w);
    assert(cv as int == cw as int);
}

/// Different byte sequences have different encodings.
pub proof fn lemma_base64_injective(a: Seq<u8>, b: Seq<u8>)
    requires
        base64_url(a) == base64_url(b),
    ensures
        a == b,
    decreases a.len(),
{
    lemma_base64_len(a);
    lemma_base64_len(b);
    assert(a.len() == b.len()) by {
        let la = base64_url(a).len();
        assert(la % 4 == 0 ==> a.len() % 3 == 0 && b.len() % 3 == 0);
        assert(la % 4 == 2 ==> a.len() % 3 == 1 && b.len() % 3 == 1);
        assert(la % 4 == 3 ==> a.len() % 3 == 2 && b.len() % 3 == 2);
    }
    if a.len() == 0 {
        assert(a =~= b);
    } else {
        let ea = base64_url(a);
        let eb = base64_url(b);
        let (xa, ya, za) = (a[0] as int, if a.len() > 1 { a[1] as int } else { 0 }, if a.len() > 2 { a[2] as int } else { 0 });
        let (xb, yb, zb) = (b[0] as int, if b.len() > 1 { b[1] as int } else { 0 }, if b.len() > 2 { b[2] as int } else { 0 });
        assert(ea[0] == b64_digit(xa / 4) && eb[0] == b64_digit(xb / 4));
        lemma_digit_injective(xa / 4, xb / 4);
        assert(ea[1] == b64_digit((xa % 4) * 16 + ya / 16) && eb[1] == b64_digit((xb % 4) * 16 + yb / 16));
        lemma_digit_injective((xa % 4) * 16 + ya / 16, (xb % 4) * 16 + yb / 16);
        assert(xa == xb);
        if a.len() == 1 {
            assert(a =~= b);
        } else {
            if a.len() == 2 {
                assert(ea[2] == b64_digit((ya % 16) * 4) && eb[2] == b64_digit((yb % 16) * 4));
                lemma_digit_injective((ya % 16) * 4, (yb % 16) * 4);
                assert(ya == yb);
                assert(a =~= b);
            } else {
                assert(ea[2] == b64_digit((ya % 16) * 4 + za / 64) && eb[2] == b64_digit((yb % 16) * 4 + zb / 64));
                lemma_digit_injective((ya % 16) * 4 + za / 64, (yb % 16) * 4 + zb / 64);
                assert(ea[3] == b64_digit(za % 64) && eb[3] == b64_digit(zb % 64));
                lemma_digit_injective(za % 64, zb % 64);
                assert(ya == yb);
                assert(za == zb);
                assert(base64_url(a.skip(3)) == ea.skip(4));
                assert(base64_url(b.skip(3)) == eb.skip(4));
                lemma_base64_injective(a.skip(3), b.skip(3));
                assert forall|i: int| 0 <= i < a.len() implies a[i] == b[i] by {
                    if i >= 3 {
                        assert(a[i] == a.skip(3)[i - 3]);
                        assert(b[i] == b.skip(3)[i - 3]);
                    }
                }
                assert(a =~= b);
            }
        }
    }
}

/// `base64::Engine::encode` with the `URL_SAFE_NO_PAD` engine. Claimed: the
/// result is `base64_url(bytes)` (RFC 4648 section 5 alphabet, no padding). The
/// length bound keeps the crate's output-size computation from overflowing.
#[verifier::external_body]
pub(crate) fn encode_url_safe(bytes: &[u8]) -> (r: String)
    requires
        bytes@.len() <= usize::MAX / 2,
    ensures
        r@ == base64_url(bytes@),
{
    base64::Engine::encode(&base64::engine::general_purpose::URL_SAFE_NO_PAD, bytes)
}

} // verus!
