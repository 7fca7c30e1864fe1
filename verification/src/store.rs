//! The loose-object store's byte-level half: framing a payload as
//! `kind SP length NUL payload`, digesting the framed form, deriving the
//! two-level object path, and compressing for disk. The surrounding file
//! system work lives with the caller; everything here is a function of the
//! bytes alone.

use vstd::prelude::*;
use vstd::string::StrSliceExecFns;
use sha1::Digest;
use vstd::utf8::{encode_utf8, encode_utf8_decode_utf8};
use vstd::arithmetic::div_mod::lemma_fundamental_div_mod;
use crate::git_object::{
    GitObject, GitObjectKind, RecordV, deserialize_object, serialize_object, lemma_kind_names_wf,
    lemma_kind_name_roundtrip,
};
use crate::hexstr::{bytes_hex_chars, lemma_bytes_hex_chars};
use crate::scan::{find_from, lemma_find_from_is, find_byte, subvec, bytes_eq};
use crate::text::{push_str_bytes, lemma_encode_utf8_absent_char};
use crate::GitError;

verus! {

/// The decimal ASCII digits of a number, most significant first.
pub open spec fn dec_digits(n: nat) -> Seq<u8>
    decreases n,
{
    if n < 10 {
        seq![(48 + n) as u8]
    } else {
        dec_digits(n / 10).push((48 + n % 10) as u8)
    }
}

pub open spec fn is_digit_byte(b: u8) -> bool {
    48 <= b <= 57
}

pub open spec fn all_digits(s: Seq<u8>) -> bool {
    forall|i: int| 0 <= i < s.len() ==> is_digit_byte(#[trigger] s[i])
}

/// The number a string of decimal ASCII digits denotes.
pub open spec fn dec_val(s: Seq<u8>) -> nat
    decreases s.len(),
{
    if s.len() == 0 {
        0
    } else {
        (dec_val(s.drop_last()) * 10 + (s.last() - 48)) as nat
    }
}

/// The printed digits of a number read back as that number, and their shape:
/// non-empty, digits only, no leading zero.
pub proof fn lemma_dec_digits(n: nat)
    ensures
        dec_val(dec_digits(n)) == n,
        all_digits(dec_digits(n)),
        dec_digits(n).len() >= 1,
        dec_digits(n).len() > 1 ==> dec_digits(n)[0] != 48,
    decreases n,
{
    if n < 10 {
        let s = dec_digits(n);
        assert(s == seq![(48 + n) as u8]);
        assert(s.drop_last() =~= Seq::<u8>::empty());
        assert(dec_val(s.drop_last()) == 0);
        assert(s.last() == (48 + n) as u8);
        assert((48 + n) as u8 == 48 + n);
        assert(dec_val(s) == n);
    } else {
        lemma_dec_digits(n / 10);
        lemma_fundamental_div_mod(n as int, 10);
        let front = dec_digits(n / 10);
        let s = dec_digits(n);
        assert(s == front.push((48 + n % 10) as u8));
        assert(s.drop_last() =~= front);
        assert(s.last() == (48 + n % 10) as u8);
        assert(dec_val(s) == dec_val(front) * 10 + n % 10);
        assert(dec_val(s) == n);
        assert(all_digits(s)) by {
            assert(forall|i: int| 0 <= i < front.len() ==> s[i] == front[i]);
        }
        assert(s[0] == front[0]);
        assert(n / 10 >= 1);
        if n / 10 < 10 {
            assert(front == seq![(48 + n / 10) as u8]);
            assert(front[0] == (48 + n / 10) as u8);
            assert((48 + n / 10) as u8 == 48 + n / 10);
            assert(front[0] != 48);
        } else {
            lemma_dec_digits((n / 10) / 10);
            assert(front == dec_digits((n / 10) / 10).push((48 + (n / 10) % 10) as u8));
            assert(front.len() > 1);
            assert(front[0] != 48);
        }
    }
}

/// Prints a number as decimal ASCII digits.
pub fn usize_to_dec(n: usize) -> (r: Vec<u8>)
    ensures
        r@ == dec_digits(n as nat),
    decreases n,
{
    if n < 10 {
        let mut out: Vec<u8> = Vec::new();
        out.push(48 + (n as u8));
        proof {
            assert(out@ =~= dec_digits(n as nat));
        }
        out
    } else {
        let mut out = usize_to_dec(n / 10);
        out.push(48 + ((n % 10) as u8));
        out
    }
}

/// A digit prefix never exceeds the whole number it begins.
proof fn lemma_dec_val_prefix_le(s: Seq<u8>, i: int)
    requires
        all_digits(s),
        0 <= i <= s.len(),
    ensures
        dec_val(s.take(i)) <= dec_val(s),
    decreases s.len() - i,
{
    if i < s.len() {
        assert(s.take(i + 1).drop_last() =~= s.take(i));
        assert(s.take(i + 1).last() == s[i]);
        assert(dec_val(s.take(i + 1)) == dec_val(s.take(i)) * 10 + (s[i] - 48));
        assert(dec_val(s.take(i)) <= dec_val(s.take(i + 1)));
        lemma_dec_val_prefix_le(s, i + 1);
        assert(s.take(s.len() as int) =~= s);
    } else {
        assert(s.take(i) =~= s);
    }
}

/// Reads decimal ASCII digits back as a number, within machine range.
fn parse_dec(s: &[u8]) -> (r: Option<usize>)
    ensures
        r matches Some(v) ==> s@.len() > 0 && all_digits(s@) && v as nat == dec_val(s@),
        r is None ==> !(s@.len() > 0 && all_digits(s@) && dec_val(s@) <= usize::MAX as nat),
{
    if s.len() == 0 {
        return None;
    }
    let mut acc: usize = 0;
    let mut i: usize = 0;
    proof {
        assert(s@.take(0) =~= Seq::<u8>::empty());
    }
    while i < s.len()
        invariant
            0 <= i <= s@.len(),
            forall|j: int| 0 <= j < i ==> is_digit_byte(#[trigger] s@[j]),
            acc as nat == dec_val(s@.take(i as int)),
        decreases s@.len() - i,
    {
        let b = s[i];
        if b < 48 || b > 57 {
            return None;
        }
        proof {
            assert(s@.take(i + 1).drop_last() =~= s@.take(i as int));
            assert(s@.take(i + 1).last() == s@[i as int]);
        }
        let step = match acc.checked_mul(10) {
            Some(m) => m.checked_add((b - 48) as usize),
            None => None,
        };
        match step {
            Some(v) => {
                acc = v;
            },
            None => {
                proof {
                    if all_digits(s@) {
                        assert(dec_val(s@.take(i + 1)) > usize::MAX as nat);
                        lemma_dec_val_prefix_le(s@, i + 1);
                    }
                }
                return None;
            },
        }
        i = i + 1;
    }
    proof {
        assert(s@.take(s@.len() as int) =~= s@);
    }
    Some(acc)
}

/// Which kind a name's UTF-8 bytes denote, if any.
pub open spec fn kind_from_bytes(s: Seq<u8>) -> Option<GitObjectKind> {
    if s == encode_utf8("blob"@) {
        Some(GitObjectKind::Blob)
    } else if s == encode_utf8("commit"@) {
        Some(GitObjectKind::Commit)
    } else if s == encode_utf8("tag"@) {
        Some(GitObjectKind::Tag)
    } else if s == encode_utf8("tree"@) {
        Some(GitObjectKind::Tree)
    } else {
        None
    }
}

/// A kind's own encoded name denotes that kind.
pub proof fn lemma_kind_bytes_roundtrip(k: GitObjectKind)
    ensures
        kind_from_bytes(encode_utf8(k.name_chars())) == Some(k),
{
    lemma_kind_name_roundtrip(k);
    let kb = encode_utf8(k.name_chars());
    if kb == encode_utf8("blob"@) {
        encode_utf8_decode_utf8(k.name_chars());
        encode_utf8_decode_utf8("blob"@);
    }
    if kb == encode_utf8("commit"@) {
        encode_utf8_decode_utf8(k.name_chars());
        encode_utf8_decode_utf8("commit"@);
    }
    if kb == encode_utf8("tag"@) {
        encode_utf8_decode_utf8(k.name_chars());
        encode_utf8_decode_utf8("tag"@);
    }
    if kb == encode_utf8("tree"@) {
        encode_utf8_decode_utf8(k.name_chars());
        encode_utf8_decode_utf8("tree"@);
    }
}

fn kind_from_bytes_exec(s: &[u8]) -> (r: Option<GitObjectKind>)
    ensures
        r == kind_from_bytes(s@),
{
    if bytes_eq(s, "blob".as_bytes()) {
        Some(GitObjectKind::Blob)
    } else if bytes_eq(s, "commit".as_bytes()) {
        Some(GitObjectKind::Commit)
    } else if bytes_eq(s, "tag".as_bytes()) {
        Some(GitObjectKind::Tag)
    } else if bytes_eq(s, "tree".as_bytes()) {
        Some(GitObjectKind::Tree)
    } else {
        None
    }
}

/// The framed form of a payload: `kind SP decimal-length NUL payload`. This
/// exact byte string is what is digested and what is compressed to disk.
pub open spec fn frame_bytes(kind: GitObjectKind, payload: Seq<u8>) -> Seq<u8> {
    encode_utf8(kind.name_chars()) + seq![32u8] + dec_digits(payload.len()) + seq![0u8] + payload
}

/// Builds the framed form of a payload.
pub fn frame_payload(kind: &GitObjectKind, payload: &[u8]) -> (r: Vec<u8>)
    ensures
        r@ == frame_bytes(*kind, payload@),
{
    let mut out: Vec<u8> = Vec::new();
    push_str_bytes(&mut out, kind.as_str());
    out.push(32u8);
    let digits = usize_to_dec(payload.len());
    out.extend_from_slice(digits.as_slice());
    out.push(0u8);
    out.extend_from_slice(payload);
    proof {
        assert(out@ =~= frame_bytes(*kind, payload@));
    }
    out
}

/// What splitting framed bytes yields: the kind and payload on success, or
/// which of the store's errors the frame earns.
pub open spec fn spec_parse_framed(bin: Seq<u8>) -> Result<(GitObjectKind, Seq<u8>), GitError> {
    let sp = find_from(bin, 0, 32u8);
    if sp >= bin.len() {
        Err(GitError::CorruptPayload { offset: 0 })
    } else {
        match kind_from_bytes(bin.subrange(0, sp)) {
            None => Err(GitError::UnknownKind),
            Some(k) => {
                let nul = find_from(bin, sp + 1, 0u8);
                if nul >= bin.len() {
                    Err(GitError::CorruptPayload { offset: (sp + 1) as usize })
                } else {
                    let digits = bin.subrange(sp + 1, nul);
                    if digits.len() == 0 || !all_digits(digits) || (digits.len() > 1 && digits[0]
                        == 48) || dec_val(digits) > usize::MAX as nat {
                        Err(GitError::CorruptPayload { offset: (sp + 1) as usize })
                    } else if dec_val(digits) != bin.len() - nul - 1 {
                        Err(GitError::SizeMismatch)
                    } else {
                        Ok((k, bin.skip(nul + 1)))
                    }
                }
            },
        }
    }
}

/// Splitting a well-built frame gives back its kind and payload: a frame is
/// never mistaken for another kind, another length, or other bytes.
pub proof fn lemma_parse_frame_complete(k: GitObjectKind, p: Seq<u8>)
    requires
        p.len() <= usize::MAX as nat,
    ensures
        spec_parse_framed(frame_bytes(k, p)) == Ok::<_, GitError>((k, p)),
{
    let bin = frame_bytes(k, p);
    let kb = encode_utf8(k.name_chars());
    lemma_dec_digits(p.len());
    let digits = dec_digits(p.len());
    let dl = digits.len() as int;
    let kl = kb.len() as int;
    assert(bin.len() == kl + 1 + dl + 1 + p.len());
    // layout facts
    assert forall|j: int| 0 <= j < kl implies bin[j] == kb[j] by {}
    assert(bin[kl] == 32u8);
    assert forall|j: int| 0 <= j < dl implies bin[kl + 1 + j] == digits[j] by {}
    assert(bin[kl + 1 + dl] == 0u8);
    assert forall|j: int| 0 <= j < p.len() implies bin[kl + 1 + dl + 1 + j] == p[j] by {}
    // the kind name has no space and no NUL; digits are digits
    lemma_kind_names_wf(k);
    lemma_encode_utf8_absent_char(k.name_chars(), ' ');
    assert((' ' as u32) as u8 == 32u8);
    assert forall|j: int| 0 <= j < kl implies bin[j] != 32u8 by {
        assert(kb[j] != 32u8);
    }
    lemma_find_from_is(bin, 0, 32u8, kl);
    assert(bin.subrange(0, kl) =~= kb);
    lemma_kind_bytes_roundtrip(k);
    // the NUL scan skips the digits
    assert forall|j: int| kl + 1 <= j < kl + 1 + dl implies bin[j] != 0u8 by {
        assert(bin[j] == digits[j - (kl + 1)]);
        assert(is_digit_byte(digits[j - (kl + 1)]));
    }
    lemma_find_from_is(bin, kl + 1, 0u8, kl + 1 + dl);
    let nul = kl + 1 + dl;
    assert(bin.subrange(kl + 1, nul) =~= digits);
    assert(dec_val(digits) == p.len());
    assert(bin.len() - nul - 1 == p.len());
    assert(bin.skip(nul + 1) =~= p);
}

/// The framed form determines kind and payload: two records that frame to
/// the same bytes had the same kind and the same payload, so two digests of
/// distinct kind-payload pairs are digests of distinct inputs.
pub proof fn lemma_frame_injective(
    k1: GitObjectKind,
    p1: Seq<u8>,
    k2: GitObjectKind,
    p2: Seq<u8>,
)
    requires
        p1.len() <= usize::MAX as nat,
        p2.len() <= usize::MAX as nat,
        frame_bytes(k1, p1) == frame_bytes(k2, p2),
    ensures
        k1 == k2,
        p1 == p2,
{
    lemma_parse_frame_complete(k1, p1);
    lemma_parse_frame_complete(k2, p2);
}

/// Splits framed bytes into kind and payload, validating the declared
/// length: `UnknownKind` exactly when the kind tag is not one of the four
/// names, `SizeMismatch` exactly when a well-formed length disagrees with
/// the payload, `CorruptPayload` when the frame structure itself is broken.
pub fn parse_framed(bin: &[u8]) -> (r: Result<(GitObjectKind, Vec<u8>), GitError>)
    ensures
        r matches Ok(kp) ==> spec_parse_framed(bin@) == Ok::<_, GitError>((kp.0, kp.1@)),
        r matches Err(e) ==> spec_parse_framed(bin@) == Err::<(GitObjectKind, Seq<u8>), _>(e),
{
    let sp = find_byte(bin, 0, 32u8);
    if sp >= bin.len() {
        return Err(GitError::CorruptPayload { offset: 0 });
    }
    let kind_slice = vstd::slice::slice_subrange(bin, 0, sp);
    let kind = match kind_from_bytes_exec(kind_slice) {
        Some(k) => k,
        None => {
            return Err(GitError::UnknownKind);
        },
    };
    let nul = find_byte(bin, sp + 1, 0u8);
    if nul >= bin.len() {
        return Err(GitError::CorruptPayload { offset: sp + 1 });
    }
    let digit_slice = vstd::slice::slice_subrange(bin, sp + 1, nul);
    let declared = match parse_dec(digit_slice) {
        Some(v) => v,
        None => {
            return Err(GitError::CorruptPayload { offset: sp + 1 });
        },
    };
    if digit_slice.len() > 1 && digit_slice[0] == 48u8 {
        return Err(GitError::CorruptPayload { offset: sp + 1 });
    }
    let content = subvec(bin, nul + 1, bin.len());
    if declared != content.len() {
        return Err(GitError::SizeMismatch);
    }
    proof {
        assert(bin@.skip(nul + 1) =~= bin@.subrange(nul + 1, bin@.len() as int));
    }
    Ok((kind, content))
}

pub uninterp spec fn sha1_of(data: Seq<u8>) -> Seq<u8>;

/// Relies on the sha1 crate's `Sha1` through the `Digest` trait: the SHA-1
/// of the input, twenty bytes, a function of the input alone.
#[verifier::external_body]
fn sha1_digest(data: &[u8]) -> (r: Vec<u8>)
    ensures
        r@ == sha1_of(data@),
        r@.len() == 20,
{
    sha1::Sha1::digest(data).to_vec()
}

/// Relies on `hex::encode`: two lowercase hex digits per input byte, in
/// order.
#[verifier::external_body]
fn hex_encode(data: &[u8]) -> (r: String)
    ensures
        r@ == bytes_hex_chars(data@),
{
    hex::encode(data)
}

pub uninterp spec fn zlib_of(data: Seq<u8>) -> Seq<u8>;

/// Relies on flate2's `write::ZlibEncoder` at the default level:
/// deterministic zlib compression of the input. Writing into a `Vec` sink
/// cannot fail, so the error arm is never taken.
#[verifier::external_body]
pub(crate) fn zlib_compress(data: &[u8]) -> (r: Vec<u8>)
    ensures
        r@ == zlib_of(data@),
{
    let mut enc = flate2::write::ZlibEncoder::new(Vec::new(), flate2::Compression::default());
    let _ = std::io::Write::write_all(&mut enc, data);
    match enc.finish() {
        Ok(v) => v,
        Err(_) => Vec::new(),
    }
}

/// Relies on flate2's `read::ZlibDecoder`: decompressing a compressed
/// stream yields exactly the bytes that were compressed.
#[verifier::external_body]
pub(crate) fn zlib_decompress(data: &[u8]) -> (r: Result<Vec<u8>, GitError>)
    ensures
        r is Err ==> forall|orig: Seq<u8>| data@ != #[trigger] zlib_of(orig),
        r matches Ok(v) ==> forall|orig: Seq<u8>|
            data@ == #[trigger] zlib_of(orig) ==> v@ == orig,
{
    let mut out = Vec::new();
    let mut dec = flate2::read::ZlibDecoder::new(data);
    match std::io::Read::read_to_end(&mut dec, &mut out) {
        Ok(_) => Ok(out),
        Err(_) => Err(GitError::CorruptPayload { offset: 0 }),
    }
}

/// The 40-hex digest of a record kind and payload: SHA-1 over the framed
/// form. Two equal kind-payload pairs always digest alike.
pub open spec fn digest_chars(kind: GitObjectKind, payload: Seq<u8>) -> Seq<char> {
    bytes_hex_chars(sha1_of(frame_bytes(kind, payload)))
}

/// Computes the digest a payload of the given kind is stored under.
pub fn digest_of(kind: &GitObjectKind, payload: &[u8]) -> (r: String)
    ensures
        r@ == digest_chars(*kind, payload@),
        r@.len() == 40,
{
    let framed = frame_payload(kind, payload);
    let digest = sha1_digest(framed.as_slice());
    let hexs = hex_encode(digest.as_slice());
    proof {
        lemma_bytes_hex_chars(digest@);
    }
    hexs
}

/// Everything needed to persist one record: its digest, the two path pieces
/// under `objects/`, and the compressed bytes for the file.
pub struct StoredObject {
    pub sha: String,
    pub dir_name: String,
    pub file_name: String,
    pub compressed: Vec<u8>,
}

/// The two-level path pieces a digest is stored under: the first two hex
/// characters name the directory, the remaining ones the file.
pub fn object_path_parts(sha: &str) -> (r: Option<(String, String)>)
    ensures
        r is Some <==> (sha@.len() >= 2 && vstd::utf8::is_ascii_chars(sha@)),
        r matches Some(p) ==> p.0@ == sha@.subrange(0, 2) && p.1@ == sha@.subrange(
            2,
            sha@.len() as int,
        ),
{
    if !s_is_ascii(sha) {
        return None;
    }
    let n = sha.unicode_len();
    if n < 2 {
        return None;
    }
    let dir = sha.substring_ascii(0, 2);
    let file = sha.substring_ascii(2, n);
    Some((dir.to_owned(), file.to_owned()))
}

/// Whether every character of the string is ASCII.
fn s_is_ascii(s: &str) -> (r: bool)
    ensures
        r == vstd::utf8::is_ascii_chars(s@),
{
    s.is_ascii()
}

impl GitObject {
    /// The 40-hex digest addressing this record: SHA-1 over the framed
    /// canonical payload.
    pub fn hash(&self) -> (r: Result<String, GitError>)
        ensures
            r is Ok <==> self@.encodable(),
            r matches Ok(h) ==> h@ == digest_chars(self@.kind(), self@.canonical_payload())
                && h@.len() == 40,
    {
        let data = match serialize_object(self) {
            Ok(d) => d,
            Err(e) => {
                return Err(e);
            },
        };
        let kind = self.kind();
        Ok(digest_of(&kind, data.as_slice()))
    }

    /// Computes the write plan for this record: digest, the two path pieces
    /// under `objects/`, and the compressed framed payload. The plan is a
    /// function of the record alone, so writing twice computes the same
    /// digest and the same path, and a create-if-absent write of the plan
    /// leaves exactly one file.
    pub fn prepare_write(&self) -> (r: Result<StoredObject, GitError>)
        ensures
            r is Ok <==> self@.encodable(),
            r matches Ok(s) ==> s.sha@ == digest_chars(self@.kind(), self@.canonical_payload())
                && s.sha@.len() == 40 && s.dir_name@ == s.sha@.subrange(0, 2) && s.file_name@
                == s.sha@.subrange(2, 40) && s.compressed@ == zlib_of(
                frame_bytes(self@.kind(), self@.canonical_payload()),
            ),
    {
        let data = match serialize_object(self) {
            Ok(d) => d,
            Err(e) => {
                return Err(e);
            },
        };
        let kind = self.kind();
        let framed = frame_payload(&kind, data.as_slice());
        let digest = sha1_digest(framed.as_slice());
        let sha = hex_encode(digest.as_slice());
        proof {
            lemma_bytes_hex_chars(digest@);
        }
        let compressed = zlib_compress(framed.as_slice());
        let parts = match object_path_parts(sha.as_str()) {
            Some(p) => p,
            None => {
                proof {
                    assert(false);
                }
                return Err(GitError::InvalidRecord);
            },
        };
        Ok(
            StoredObject {
                sha,
                dir_name: parts.0,
                file_name: parts.1,
                compressed,
            },
        )
    }
}

/// Reads one loose object back from its compressed file bytes: decompress,
/// split the frame, check the declared length, and decode by kind.
///
/// The first postcondition is the store's read-back guarantee: whatever
/// `prepare_write` computed for an encodable record, reading those bytes
/// yields that record again. The last carries the frame's error taxonomy up
/// through the compression: bytes that decompress to a broken frame fail
/// with exactly that frame's error — a flipped kind tag is `UnknownKind`, a
/// disagreeing length is `SizeMismatch` — never a silent wrong decode.
pub fn object_read_data(compressed: &[u8]) -> (r: Result<GitObject, GitError>)
    ensures
        forall|v: RecordV|
            #![trigger v.payload()]
            v.encodable() && compressed@ == zlib_of(frame_bytes(v.kind(), v.payload())) ==> (
            r matches Ok(o) && o@ == v),
        r matches Ok(o) ==> o@.encodable(),
        forall|orig: Seq<u8>|
            compressed@ == #[trigger] zlib_of(orig) && spec_parse_framed(orig) is Err ==> r
                == Err::<GitObject, GitError>(spec_parse_framed(orig)->Err_0),
        forall|orig: Seq<u8>|
            compressed@ == #[trigger] zlib_of(orig) && spec_parse_framed(orig) is Ok ==> ({
                let kp = spec_parse_framed(orig)->Ok_0;
                &&& (r matches Ok(o) ==> o@.kind() == kp.0 && (match kp.0 {
                    GitObjectKind::Blob => o@ == (RecordV::Blob { content: kp.1 }),
                    GitObjectKind::Commit => crate::git_object::commit_sound(kp.1, o@),
                    GitObjectKind::Tag => crate::git_object::tag_sound(kp.1, o@),
                    GitObjectKind::Tree => crate::tree::parse_tree_from(kp.1, 0) == Some(
                        o@->Tree_entries,
                    ),
                }))
                &&& (r matches Err(e) ==> e is CorruptPayload)
            }),
{
    let bin = match zlib_decompress(compressed) {
        Ok(b) => b,
        Err(e) => {
            return Err(e);
        },
    };
    let bin_len = bin.len();
    proof {
        assert(bin@.len() <= usize::MAX as nat);
    }
    let parsed = match parse_framed(bin.as_slice()) {
        Ok(kp) => kp,
        Err(e) => {
            proof {
                assert forall|v: RecordV|
                    #![trigger v.payload()]
                    !(v.encodable() && compressed@ == zlib_of(
                        frame_bytes(v.kind(), v.payload()),
                    )) by {
                    if v.encodable() && compressed@ == zlib_of(
                        frame_bytes(v.kind(), v.payload()),
                    ) {
                        assert(bin@ == frame_bytes(v.kind(), v.payload()));
                        assert(v.payload().len() <= bin@.len());
                        lemma_parse_frame_complete(v.kind(), v.payload());
                    }
                }
                assert forall|orig: Seq<u8>|
                    compressed@ == #[trigger] zlib_of(orig) && spec_parse_framed(orig)
                        is Err implies spec_parse_framed(orig)->Err_0 == e by {
                    assert(bin@ == orig);
                }
                assert forall|orig: Seq<u8>|
                    !(compressed@ == #[trigger] zlib_of(orig) && spec_parse_framed(orig)
                        is Ok) by {
                    if compressed@ == zlib_of(orig) {
                        assert(bin@ == orig);
                    }
                }
            }
            return Err(e);
        },
    };
    let (kind, content) = parsed;
    let obj = match deserialize_object(&kind, content.as_slice()) {
        Ok(o) => o,
        Err(e) => {
            proof {
                assert forall|v: RecordV|
                    #![trigger v.payload()]
                    !(v.encodable() && compressed@ == zlib_of(
                        frame_bytes(v.kind(), v.payload()),
                    )) by {
                    if v.encodable() && compressed@ == zlib_of(
                        frame_bytes(v.kind(), v.payload()),
                    ) {
                        assert(bin@ == frame_bytes(v.kind(), v.payload()));
                        assert(v.payload().len() <= bin@.len());
                        lemma_parse_frame_complete(v.kind(), v.payload());
                    }
                }
                assert forall|orig: Seq<u8>|
                    !(compressed@ == #[trigger] zlib_of(orig) && spec_parse_framed(orig)
                        is Err) by {
                    if compressed@ == zlib_of(orig) {
                        assert(bin@ == orig);
                    }
                }
                assert forall|orig: Seq<u8>|
                    compressed@ == #[trigger] zlib_of(orig) && spec_parse_framed(orig)
                        is Ok implies spec_parse_framed(orig)->Ok_0 == (kind, content@)
                    && e is CorruptPayload by {
                    assert(bin@ == orig);
                }
            }
            return Err(e);
        },
    };
    proof {
        assert forall|v: RecordV|
            #![trigger v.payload()]
            v.encodable() && compressed@ == zlib_of(frame_bytes(v.kind(), v.payload())) implies (
        obj@ == v) by {
            assert(bin@ == frame_bytes(v.kind(), v.payload()));
            assert(v.payload().len() <= bin@.len());
            lemma_parse_frame_complete(v.kind(), v.payload());
        }
        assert forall|orig: Seq<u8>|
            !(compressed@ == #[trigger] zlib_of(orig) && spec_parse_framed(orig) is Err) by {
            if compressed@ == zlib_of(orig) {
                assert(bin@ == orig);
            }
        }
        assert forall|orig: Seq<u8>|
            compressed@ == #[trigger] zlib_of(orig) && spec_parse_framed(orig)
                is Ok implies spec_parse_framed(orig)->Ok_0 == (kind, content@) by {
            assert(bin@ == orig);
        }
    }
    Ok(obj)
}

} // verus!
