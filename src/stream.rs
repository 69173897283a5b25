//! The streaming file cipher. An encrypted file is its 19-byte stream nonce
//! followed by the plaintext cut into 500-byte chunks, each sealed at its
//! position with the STREAM construction; the final chunk, possibly short or
//! empty, is sealed with the last-block flag.

use vstd::prelude::*;
use vstd::slice::slice_to_vec;
use crate::error::VaultError;
use crate::keys::into_array;
use crate::primitives::{aead_message_limit, stream_open, stream_seal, stream_seal_of};

verus! {

/// Plaintext bytes per chunk.
pub const CHUNK_LEN: usize = 500;

/// Bytes of a sealed full chunk: the chunk and its tag.
pub const SEALED_CHUNK_LEN: usize = 516;

/// Bytes of the stream nonce at the head of an encrypted file.
pub const STREAM_NONCE_LEN: usize = 19;

/// The sealed chunks of `plain`, the first at `position`.
pub open spec fn sealed_body(key: Seq<u8>, prefix: Seq<u8>, plain: Seq<u8>, position: int) -> Seq<u8>
    decreases plain.len(),
{
    if plain.len() >= CHUNK_LEN {
        stream_seal_of(key, prefix, position as u32, false, plain.take(CHUNK_LEN as int))
            + sealed_body(key, prefix, plain.skip(CHUNK_LEN as int), position + 1)
    } else {
        stream_seal_of(key, prefix, position as u32, true, plain)
    }
}

/// Whether every sealed chunk of `plain`, from `position` on, is its chunk plus
/// a tag, as the cipher produces.
pub open spec fn body_fits(key: Seq<u8>, prefix: Seq<u8>, plain: Seq<u8>, position: int) -> bool
    decreases plain.len(),
{
    if plain.len() >= CHUNK_LEN {
        &&& stream_seal_of(key, prefix, position as u32, false, plain.take(CHUNK_LEN as int)).len()
            == SEALED_CHUNK_LEN
        &&& body_fits(key, prefix, plain.skip(CHUNK_LEN as int), position + 1)
    } else {
        stream_seal_of(key, prefix, position as u32, true, plain).len() == plain.len() + 16
    }
}

/// Whether the chunk counter suffices for `plain`: the final chunk's position
/// still fits in 32 bits.
pub open spec fn stream_sized(plain: Seq<u8>) -> bool {
    plain.len() as int / (CHUNK_LEN as int) <= u32::MAX
}

/// The encrypted file for `plain` under `key` with stream nonce `nonce`.
pub open spec fn sealed_stream(key: Seq<u8>, nonce: Seq<u8>, plain: Seq<u8>) -> Seq<u8> {
    nonce + sealed_body(key, nonce, plain, 0)
}

/// Whether `sealed` is the encrypted file of `plain` under `key`, with the
/// stream nonce at its head.
pub open spec fn is_stream_of(key: Seq<u8>, sealed: Seq<u8>, plain: Seq<u8>) -> bool {
    &&& sealed.len() >= STREAM_NONCE_LEN
    &&& stream_sized(plain)
    &&& body_fits(key, sealed.take(STREAM_NONCE_LEN as int), plain, 0)
    &&& sealed == sealed_stream(key, sealed.take(STREAM_NONCE_LEN as int), plain)
}

/// Whether `sealed` is the encrypted file of some plaintext under `key`.
pub open spec fn is_sealed_stream(key: Seq<u8>, sealed: Seq<u8>) -> bool {
    exists|p: Seq<u8>| #[trigger] is_stream_of(key, sealed, p)
}

/// Whether the length of `sealed` can be that of an encrypted file: a nonce,
/// a final chunk that does not end on a full-chunk boundary, and no more chunks
/// than the counter can number.
pub open spec fn stream_length_ok(len: int) -> bool {
    &&& len >= STREAM_NONCE_LEN
    &&& (len - STREAM_NONCE_LEN) % (SEALED_CHUNK_LEN as int) != 0
    &&& (len - STREAM_NONCE_LEN) / (SEALED_CHUNK_LEN as int) <= u32::MAX
}

/// Whether `len` can be the length of an encrypted file.
pub fn stream_length_valid(len: usize) -> (r: bool)
    ensures
        r == stream_length_ok(len as int),
{
    len >= STREAM_NONCE_LEN && (len - STREAM_NONCE_LEN) % SEALED_CHUNK_LEN != 0 && (len
        - STREAM_NONCE_LEN) / SEALED_CHUNK_LEN <= u32::MAX as usize
}

/// Sealing a full chunk in front of `rest` adds that chunk's seal in front.
proof fn lemma_body_step(key: Seq<u8>, prefix: Seq<u8>, chunk: Seq<u8>, rest: Seq<u8>, position: int)
    requires
        chunk.len() == CHUNK_LEN,
    ensures
        sealed_body(key, prefix, chunk + rest, position) == stream_seal_of(
            key,
            prefix,
            position as u32,
            false,
            chunk,
        ) + sealed_body(key, prefix, rest, position + 1),
        body_fits(key, prefix, chunk + rest, position) == (stream_seal_of(
            key,
            prefix,
            position as u32,
            false,
            chunk,
        ).len() == SEALED_CHUNK_LEN && body_fits(key, prefix, rest, position + 1)),
{
    assert((chunk + rest).take(CHUNK_LEN as int) =~= chunk);
    assert((chunk + rest).skip(CHUNK_LEN as int) =~= rest);
}

/// The length of the sealed chunks of `plain`.
proof fn lemma_body_len(key: Seq<u8>, prefix: Seq<u8>, plain: Seq<u8>, position: int)
    requires
        body_fits(key, prefix, plain, position),
    ensures
        sealed_body(key, prefix, plain, position).len() == SEALED_CHUNK_LEN as int * (plain.len()
            as int / CHUNK_LEN as int) + plain.len() as int % CHUNK_LEN as int + 16,
    decreases plain.len(),
{
    if plain.len() >= CHUNK_LEN {
        let rest = plain.skip(CHUNK_LEN as int);
        lemma_body_len(key, prefix, rest, position + 1);
        let l = plain.len() as int;
        assert(rest.len() == l - 500);
        assert((l - 500) / 500 == l / 500 - 1 && (l - 500) % 500 == l % 500) by (nonlinear_arith)
            requires
                l >= 500,
        ;
    }
}

/// An encrypted file's length meets `stream_length_ok`.
pub proof fn lemma_stream_length(key: Seq<u8>, sealed: Seq<u8>, plain: Seq<u8>)
    requires
        is_stream_of(key, sealed, plain),
    ensures
        stream_length_ok(sealed.len() as int),
{
    lemma_body_len(key, sealed.take(STREAM_NONCE_LEN as int), plain, 0);
    let q = plain.len() as int / 500;
    let m = plain.len() as int % 500;
    assert(0 <= m < 500);
    assert((516 * q + m + 16) % 516 == m + 16 && (516 * q + m + 16) / 516 == q) by (nonlinear_arith)
        requires
            0 <= m < 500,
            q >= 0,
    ;
}

/// Encrypts file contents under `key` with the stream nonce `nonce`.
pub fn seal_contents(plain: &[u8], key: &[u8; 32], nonce: &[u8; 19]) -> (r: Result<
    Vec<u8>,
    VaultError,
>)
    ensures
        r is Ok <==> stream_sized(plain@),
        r is Ok ==> r->Ok_0@ == sealed_stream(key@, nonce@, plain@),
        r is Ok ==> body_fits(key@, nonce@, plain@, 0),
        r is Err ==> r == Err::<Vec<u8>, VaultError>(VaultError::Crypto),
{
    if plain.len() / CHUNK_LEN > u32::MAX as usize {
        return Err(VaultError::Crypto);
    }
    let ghost k = key@;
    let ghost n = nonce@;
    let mut out: Vec<u8> = Vec::new();
    out.extend_from_slice(nonce);
    let mut off: usize = 0;
    let mut pos: u32 = 0;
    assert(plain@.skip(0) =~= plain@);
    while plain.len() - off >= CHUNK_LEN
        invariant
            k == key@,
            n == nonce@,
            off <= plain@.len(),
            off == pos as int * CHUNK_LEN as int,
            plain@.len() as int / (CHUNK_LEN as int) <= u32::MAX,
            out@ + sealed_body(k, n, plain@.skip(off as int), pos as int) == sealed_stream(
                k,
                n,
                plain@,
            ),
            body_fits(k, n, plain@.skip(off as int), pos as int) ==> body_fits(k, n, plain@, 0),
        decreases plain.len() - off,
    {
        let ghost rest = plain@.skip(off as int);
        let chunk = &plain[off..off + CHUNK_LEN];
        let sealed = match stream_seal(key, nonce, pos, false, chunk) {
            Ok(c) => c,
            Err(_) => vstd::pervasive::unreached(),
        };
        proof {
            assert(rest =~= chunk@ + plain@.skip(off + CHUNK_LEN));
            lemma_body_step(k, n, chunk@, plain@.skip(off + CHUNK_LEN), pos as int);
            assert(off + CHUNK_LEN <= plain@.len());
            assert((pos as int + 1) * CHUNK_LEN as int <= plain@.len());
            assert(pos as int + 1 <= plain@.len() as int / (CHUNK_LEN as int));
        }
        let ghost before = out@;
        out.extend_from_slice(sealed.as_slice());
        assert(out@ =~= before + sealed@);
        off = off + CHUNK_LEN;
        pos = pos + 1;
        proof {
            let tail = sealed_body(k, n, plain@.skip(off as int), pos as int);
            assert(before + sealed@ + tail =~= before + (sealed@ + tail));
        }
    }
    let last = &plain[off..plain.len()];
    assert(last@ =~= plain@.skip(off as int));
    let sealed = match stream_seal(key, nonce, pos, true, last) {
        Ok(c) => c,
        Err(_) => vstd::pervasive::unreached(),
    };
    let ghost before = out@;
    out.extend_from_slice(sealed.as_slice());
    assert(out@ =~= before + sealed@);
    Ok(out)
}

/// File contents come back from their encryption: whatever the key, stream
/// nonce and plaintext (empty, a whole number of chunks, or anything else the
/// counter can number), the encrypted file that `seal_contents` produces is one
/// that `open_contents` accepts and decrypts to that plaintext.
pub proof fn lemma_stream_round_trip(key: Seq<u8>, nonce: Seq<u8>, plain: Seq<u8>)
    requires
        nonce.len() == STREAM_NONCE_LEN,
        stream_sized(plain),
        body_fits(key, nonce, plain, 0),
    ensures
        is_stream_of(key, sealed_stream(key, nonce, plain), plain),
{
    let s = sealed_stream(key, nonce, plain);
    assert(s.take(STREAM_NONCE_LEN as int) =~= nonce);
}

/// Decrypts an encrypted file's contents under `key`, reading the stream nonce
/// from its head.
pub fn open_contents(sealed: &[u8], key: &[u8; 32]) -> (r: Result<Vec<u8>, VaultError>)
    ensures
        !stream_length_ok(sealed@.len() as int) <==> r == Err::<Vec<u8>, VaultError>(
            VaultError::Format,
        ),
        r is Err ==> r == Err::<Vec<u8>, VaultError>(VaultError::Format) || r == Err::<
            Vec<u8>,
            VaultError,
        >(VaultError::Authentication),
        r is Ok ==> is_stream_of(key@, sealed@, r->Ok_0@),
        forall|p: Seq<u8>| #[trigger] is_stream_of(key@, sealed@, p) ==> (r is Ok && r->Ok_0@ == p),
{
    if !stream_length_valid(sealed.len()) {
        proof {
            assert forall|p: Seq<u8>| !is_stream_of(key@, sealed@, p) by {
                if is_stream_of(key@, sealed@, p) {
                    lemma_stream_length(key@, sealed@, p);
                }
            }
        }
        return Err(VaultError::Format);
    }
    let nonce: [u8; 19] = into_array(slice_to_vec(&sealed[0..STREAM_NONCE_LEN]));
    let ghost k = key@;
    let ghost n = nonce@;
    let mut out: Vec<u8> = Vec::new();
    let mut off: usize = STREAM_NONCE_LEN;
    let mut pos: u32 = 0;
    proof {
        assert forall|q: Seq<u8>| #[trigger] sealed_body(k, n, out@ + q, 0) == sealed@.subrange(
            19,
            off as int,
        ) + sealed_body(k, n, q, pos as int) by {
            assert(out@ + q =~= q);
            assert(sealed@.subrange(19, 19) + sealed_body(k, n, q, 0) =~= sealed_body(k, n, q, 0));
        }
        assert forall|q: Seq<u8>| #[trigger] body_fits(k, n, q, pos as int) implies body_fits(
            k,
            n,
            out@ + q,
            0,
        ) by {
            assert(out@ + q =~= q);
        }
        assert forall|p: Seq<u8>| #[trigger] is_stream_of(k, sealed@, p) implies p.take(0) == out@
            && body_fits(k, n, p.skip(0), 0) && sealed@.skip(19) == sealed_body(k, n, p.skip(0), 0) by {
            assert(p.take(0) =~= out@);
            assert(p.skip(0) =~= p);
            assert(sealed@.skip(19) =~= sealed_body(k, n, p, 0));
        }
    }
    while sealed.len() - off > SEALED_CHUNK_LEN
        invariant
            k == key@,
            n == nonce@,
            n == sealed@.take(19),
            19 <= off <= sealed@.len(),
            off - 19 == 516 * pos as int,
            (sealed@.len() - 19) % 516 != 0,
            (sealed@.len() - 19) / 516 <= u32::MAX,
            out@.len() == 500 * pos as int,
            forall|q: Seq<u8>| #[trigger] sealed_body(k, n, out@ + q, 0) == sealed@.subrange(
                19,
                off as int,
            ) + sealed_body(k, n, q, pos as int),
            forall|q: Seq<u8>| #[trigger] body_fits(k, n, q, pos as int) ==> body_fits(
                k,
                n,
                out@ + q,
                0,
            ),
            forall|p: Seq<u8>| #[trigger] is_stream_of(k, sealed@, p) ==> (out@.len() <= p.len()
                && p.take(out@.len() as int) == out@ && body_fits(
                k,
                n,
                p.skip(out@.len() as int),
                pos as int,
            ) && sealed@.skip(off as int) == sealed_body(
                k,
                n,
                p.skip(out@.len() as int),
                pos as int,
            )),
        decreases sealed.len() - off,
    {
        let chunk = &sealed[off..off + SEALED_CHUNK_LEN];
        proof {
            assert forall|p: Seq<u8>| #[trigger] is_stream_of(k, sealed@, p) implies ({
                let rest = p.skip(out@.len() as int);
                &&& rest.len() >= 500
                &&& stream_seal_of(k, n, pos, false, rest.take(500)) == chunk@
                &&& rest.take(500).len() < aead_message_limit()
            }) by {
                let rest = p.skip(out@.len() as int);
                if rest.len() < 500 {
                    assert(sealed@.skip(off as int).len() == sealed@.len() - off);
                } else {
                    lemma_body_step(k, n, rest.take(500), rest.skip(500), pos as int);
                    assert(rest.take(500) + rest.skip(500) =~= rest);
                    let s = stream_seal_of(k, n, pos, false, rest.take(500));
                    assert(sealed@.skip(off as int).take(516) =~= chunk@);
                    assert((s + sealed_body(k, n, rest.skip(500), pos + 1)).take(516) =~= s);
                }
            }
        }
        let piece = match stream_open(key, &nonce, pos, false, chunk) {
            Ok(c) => c,
            Err(_) => {
                return Err(VaultError::Authentication);
            },
        };
        proof {
            assert(piece@.len() == 500);
        }
        let ghost before = out@;
        let ghost old_off = off;
        let ghost old_pos = pos;
        out.extend_from_slice(piece.as_slice());
        assert(out@ =~= before + piece@);
        off = off + SEALED_CHUNK_LEN;
        pos = pos + 1;
        proof {
            assert forall|q: Seq<u8>| #[trigger] sealed_body(k, n, out@ + q, 0) == sealed@.subrange(
                19,
                off as int,
            ) + sealed_body(k, n, q, pos as int) by {
                assert(before + piece@ + q =~= before + (piece@ + q));
                lemma_body_step(k, n, piece@, q, old_pos as int);
                assert(sealed@.subrange(19, off as int) =~= sealed@.subrange(19, old_off as int)
                    + chunk@);
                assert(sealed@.subrange(19, old_off as int) + (chunk@ + sealed_body(
                    k,
                    n,
                    q,
                    pos as int,
                )) =~= sealed@.subrange(19, off as int) + sealed_body(k, n, q, pos as int));
            }
            assert forall|q: Seq<u8>| #[trigger] body_fits(k, n, q, pos as int) implies body_fits(
                k,
                n,
                out@ + q,
                0,
            ) by {
                assert(before + piece@ + q =~= before + (piece@ + q));
                lemma_body_step(k, n, piece@, q, old_pos as int);
            }
            assert forall|p: Seq<u8>| #[trigger] is_stream_of(k, sealed@, p) implies (out@.len()
                <= p.len() && p.take(out@.len() as int) == out@ && body_fits(
                k,
                n,
                p.skip(out@.len() as int),
                pos as int,
            ) && sealed@.skip(off as int) == sealed_body(
                k,
                n,
                p.skip(out@.len() as int),
                pos as int,
            )) by {
                let rest = p.skip(before.len() as int);
                assert(rest.take(500) == piece@);
                assert(p.take(out@.len() as int) =~= before + rest.take(500)) by {
                    assert(p.take(before.len() as int) == before);
                }
                assert(p.skip(out@.len() as int) =~= rest.skip(500));
                lemma_body_step(k, n, rest.take(500), rest.skip(500), old_pos as int);
                assert(rest.take(500) + rest.skip(500) =~= rest);
                assert(sealed@.skip(off as int) =~= sealed@.skip(old_off as int).skip(516));
                let s = stream_seal_of(k, n, old_pos, false, rest.take(500));
                assert((s + sealed_body(k, n, rest.skip(500), pos as int)).skip(516) =~= sealed_body(
                    k,
                    n,
                    rest.skip(500),
                    pos as int,
                ));
            }
        }
    }
    let last = &sealed[off..sealed.len()];
    proof {
        assert(last@ =~= sealed@.skip(off as int));
        assert((sealed@.len() - off) % 516 == (sealed@.len() - 19) % 516) by (nonlinear_arith)
            requires
                off - 19 == 516 * pos as int,
                off <= sealed@.len(),
        ;
        assert forall|p: Seq<u8>| #[trigger] is_stream_of(k, sealed@, p) implies ({
            let rest = p.skip(out@.len() as int);
            &&& rest.len() < 500
            &&& stream_seal_of(k, n, pos, true, rest) == last@
        }) by {
            let rest = p.skip(out@.len() as int);
            if rest.len() >= 500 {
                lemma_body_step(k, n, rest.take(500), rest.skip(500), pos as int);
                assert(rest.take(500) + rest.skip(500) =~= rest);
                lemma_body_len(k, n, rest.skip(500), pos + 1);
            }
        }
    }
    let piece = match stream_open(key, &nonce, pos, true, last) {
        Ok(c) => c,
        Err(_) => {
            return Err(VaultError::Authentication);
        },
    };
    let ghost before = out@;
    out.extend_from_slice(piece.as_slice());
    proof {
        assert(out@ =~= before + piece@);
        assert(last@.len() < 516);
        assert(piece@.len() < 500);
        assert(sealed_body(k, n, piece@, pos as int) == last@);
        assert(body_fits(k, n, piece@, pos as int));
        assert(body_fits(k, n, before + piece@, 0));
        assert(sealed_body(k, n, before + piece@, 0) == sealed@.subrange(19, off as int) + last@);
        assert(sealed@ =~= n + (sealed@.subrange(19, off as int) + last@));
        assert(sealed@ == sealed_stream(k, n, out@));
        assert(sealed@.take(19) =~= n);
        let l = out@.len() as int;
        let pl = piece@.len() as int;
        assert(l / 500 == pos as int) by (nonlinear_arith)
            requires
                l == 500 * pos as int + pl,
                0 <= pl < 500,
        ;
        assert forall|p: Seq<u8>| #[trigger] is_stream_of(k, sealed@, p) implies p == out@ by {
            assert(p.take(before.len() as int) + p.skip(before.len() as int) =~= p);
        }
    }
    Ok(out)
}

} // verus!
