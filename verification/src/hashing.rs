//! Encoded images and their fingerprints: PNG encoding of RGBA pixels, and
//! the SHA-256 digest of the encoded bytes written as lowercase hexadecimal.

use image::ImageEncoder;
use sha2::Digest;
use vstd::prelude::*;

verus! {

/// The SHA-256 digest of `data`, as computed by the `sha2` crate.
pub uninterp spec fn sha256_spec(data: Seq<u8>) -> Seq<u8>;

/// Calls `sha2::Sha256` (`new`, `update`, `finalize`) on `data`.
/// Trusted: the result is the digest that `sha256_spec` names, and it is
/// 32 bytes long, as the hasher's `OutputSize` (`U32`) fixes.
#[verifier::external_body]
fn sha256(data: &[u8]) -> (digest: Vec<u8>)
    ensures
        digest@ == sha256_spec(data@),
        digest@.len() == 32,
{
    let mut hasher = sha2::Sha256::new();
    hasher.update(data);
    hasher.finalize().to_vec()
}

/// std's `String::push`. Trusted: the string afterwards is the old one with
/// `ch` appended, as std documents.
pub assume_specification[ String::push ](s: &mut String, ch: char)
    ensures
        final(s)@ == old(s)@.push(ch),
;

/// The lowercase hexadecimal digit for a value below 16.
pub open spec fn hex_digit(n: int) -> char {
    if n < 10 {
        (48 + n) as char
    } else {
        (87 + n) as char
    }
}

/// Lowercase hexadecimal encoding, two digits per byte, most significant
/// nibble first (what `format!("{:02x}", b)` writes for each byte).
pub open spec fn hex_lower(bytes: Seq<u8>) -> Seq<char>
    decreases bytes.len(),
{
    if bytes.len() == 0 {
        Seq::empty()
    } else {
        let b = bytes.last();
        hex_lower(bytes.drop_last()).push(hex_digit(b as int / 16)).push(hex_digit(b as int % 16))
    }
}

/// Every digit of `hex_lower` is one of `0-9a-f`, and there are two per byte.
pub proof fn lemma_hex_lower_len(bytes: Seq<u8>)
    ensures
        hex_lower(bytes).len() == 2 * bytes.len(),
    decreases bytes.len(),
{
    if bytes.len() > 0 {
        lemma_hex_lower_len(bytes.drop_last());
    }
}

/// The hex digit of each value below 16 is the one at that place in
/// `0123456789abcdef`.
pub proof fn lemma_hex_digit_table(n: int)
    requires
        0 <= n < 16,
    ensures
        hex_digit(n) == seq![
            '0', '1', '2', '3', '4', '5', '6', '7', '8', '9', 'a', 'b', 'c', 'd', 'e', 'f',
        ][n],
{
    let t = seq!['0', '1', '2', '3', '4', '5', '6', '7', '8', '9', 'a', 'b', 'c', 'd', 'e', 'f'];
    assert(t[0] == '0' && t[1] == '1' && t[2] == '2' && t[3] == '3' && t[4] == '4' && t[5] == '5');
    assert(t[6] == '6' && t[7] == '7' && t[8] == '8' && t[9] == '9' && t[10] == 'a');
    assert(t[11] == 'b' && t[12] == 'c' && t[13] == 'd' && t[14] == 'e' && t[15] == 'f');
}

/// Byte `k` is written at places `2k` and `2k + 1`: first the hex digit of
/// its high nibble, then that of its low nibble.
pub proof fn lemma_hex_lower_places(bytes: Seq<u8>)
    ensures
        hex_lower(bytes).len() == 2 * bytes.len(),
        forall|k: int|
            0 <= k < bytes.len() ==> {
                &&& #[trigger] hex_lower(bytes)[2 * k] == hex_digit(bytes[k] as int / 16)
                &&& hex_lower(bytes)[2 * k + 1] == hex_digit(bytes[k] as int % 16)
            },
    decreases bytes.len(),
{
    if bytes.len() > 0 {
        let d = bytes.drop_last();
        lemma_hex_lower_places(d);
        assert forall|k: int| 0 <= k < bytes.len() implies {
            &&& #[trigger] hex_lower(bytes)[2 * k] == hex_digit(bytes[k] as int / 16)
            &&& hex_lower(bytes)[2 * k + 1] == hex_digit(bytes[k] as int % 16)
        } by {
            if k < d.len() {
                assert(d[k] == bytes[k]);
                assert(hex_lower(d)[2 * k] == hex_digit(d[k] as int / 16));
            }
        }
    }
}

fn exec_hex_digit(n: u8) -> (c: char)
    requires
        n < 16,
    ensures
        c == hex_digit(n as int),
{
    if n < 10 {
        (48u8 + n) as char
    } else {
        (87u8 + n) as char
    }
}

/// Writes `bytes` as lowercase hexadecimal.
pub fn to_hex_lower(bytes: &[u8]) -> (s: String)
    ensures
        s@ == hex_lower(bytes@),
{
    let mut s = String::new();
    let n = bytes.len();
    let mut i: usize = 0;
    while i < n
        invariant
            n == bytes@.len(),
            i <= n,
            s@ == hex_lower(bytes@.take(i as int)),
        decreases n - i,
    {
        let b = bytes[i];
        s.push(exec_hex_digit(b / 16));
        s.push(exec_hex_digit(b % 16));
        proof {
            assert(bytes@.take(i + 1).drop_last() =~= bytes@.take(i as int));
            assert(bytes@.take(i + 1).last() == b);
        }
        i = i + 1;
    }
    proof {
        assert(bytes@.take(n as int) =~= bytes@);
    }
    s
}

/// The fingerprint of encoded image bytes: their SHA-256 digest in lowercase
/// hexadecimal (64 characters).
pub fn hash_image(data: &[u8]) -> (h: String)
    ensures
        h@ == hex_lower(sha256_spec(data@)),
        h@.len() == 64,
{
    let digest = sha256(data);
    proof {
        lemma_hex_lower_len(digest@);
    }
    to_hex_lower(digest.as_slice())
}

/// The PNG file that the `image` crate writes for 8-bit RGBA pixels `raw`
/// of the given size, or `None` when it refuses them.
pub uninterp spec fn png_rgba8_spec(raw: Seq<u8>, width: u32, height: u32) -> Option<Seq<u8>>;

/// Calls `image::codecs::png::PngEncoder` (`ImageEncoder::write_image` with
/// `ExtendedColorType::Rgba8`) into a byte buffer. Trusted: the bytes written
/// on success, and whether it succeeds, are what `png_rgba8_spec` names; the
/// error's message is passed on as text, about which nothing is stated.
/// `write_image` panics unless `raw` holds exactly `4 * width * height`
/// bytes, hence the `requires`.
#[verifier::external_body]
fn encode_png_rgba8(raw: &[u8], width: u32, height: u32) -> (r: Result<Vec<u8>, String>)
    requires
        raw@.len() == 4 * width * height,
    ensures
        match r {
            Ok(png) => png_rgba8_spec(raw@, width, height) == Some(png@),
            Err(_) => png_rgba8_spec(raw@, width, height) is None,
        },
{
    let mut png: Vec<u8> = Vec::new();
    let encoder = image::codecs::png::PngEncoder::new(std::io::Cursor::new(&mut png));
    match encoder.write_image(raw, width, height, image::ExtendedColorType::Rgba8) {
        Ok(()) => Ok(png),
        Err(e) => Err(e.to_string()),
    }
}

/// An image encoded for upload, with its fingerprint.
pub struct EncodedImage {
    pub png: Vec<u8>,
    pub hash: String,
}

/// Encodes 8-bit RGBA pixels as PNG and fingerprints the PNG bytes; when
/// the encoder refuses the pixels, its message is returned.
pub fn encode_image(raw: &[u8], width: u32, height: u32) -> (r: Result<EncodedImage, String>)
    requires
        raw@.len() == 4 * width * height,
    ensures
        match png_rgba8_spec(raw@, width, height) {
            Some(png) => r matches Ok(e) && e.png@ == png && e.hash@ == hex_lower(sha256_spec(png)),
            None => r is Err,
        },
{
    match encode_png_rgba8(raw, width, height) {
        Ok(png) => {
            let hash = hash_image(png.as_slice());
            Ok(EncodedImage { png, hash })
        },
        Err(message) => Err(message),
    }
}

} // verus!
