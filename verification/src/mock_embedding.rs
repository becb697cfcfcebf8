//! The byte stream behind the deterministic stand-in embedding used in local
//! development: SHA-256 of the text, then SHA-256 of a counter and the text for
//! every further 32 bytes.
use sha2::Digest;
use vstd::prelude::*;
use vstd::string::StringSliceAdditionalSpecFns;

verus! {

/// The SHA-256 digest of `data`.
pub uninterp spec fn sha256(data: Seq<u8>) -> Seq<u8>;

/// `sha2::Sha256::digest`: the SHA-256 digest of `data`, 32 bytes long.
#[verifier::external_body]
fn sha256_digest(data: &[u8]) -> (r: Vec<u8>)
    ensures
        r@ == sha256(data@),
        r@.len() == 32,
{
    sha2::Sha256::digest(data).to_vec()
}

/// The `k` lowest bytes of `x`, least significant first.
pub open spec fn le_bytes(x: nat, k: nat) -> Seq<u8>
    decreases k,
{
    if k == 0 {
        Seq::empty()
    } else {
        seq![(x % 256) as u8] + le_bytes(x / 256, (k - 1) as nat)
    }
}

/// How many bytes a `usize` takes on the target: 4 or 8.
pub open spec fn usize_width() -> nat {
    (usize::BITS / 8) as nat
}

/// The little-endian bytes of `x` in the width of `usize` (as `usize::to_le_bytes`).
fn usize_le_bytes(x: usize) -> (r: Vec<u8>)
    ensures
        r@ == le_bytes(x as nat, usize_width()),
{
    let width: usize = (usize::BITS / 8) as usize;
    let mut out: Vec<u8> = Vec::new();
    let mut v: usize = x;
    let mut k: usize = 0;
    while k < width
        invariant
            width == usize_width(),
            k <= width,
            out@ + le_bytes(v as nat, (width - k) as nat) == le_bytes(x as nat, usize_width()),
        decreases width - k,
    {
        let b = (v % 256) as u8;
        proof {
            assert(le_bytes(v as nat, (width - k) as nat) == seq![b] + le_bytes((v / 256) as nat, (width - k - 1) as nat));
            assert(out@.push(b) + le_bytes((v / 256) as nat, (width - k - 1) as nat)
                =~= out@ + (seq![b] + le_bytes((v / 256) as nat, (width - k - 1) as nat)));
        }
        out.push(b);
        v = v / 256;
        k = k + 1;
    }
    assert(out@ + le_bytes(v as nat, 0) =~= out@);
    out
}

/// Block `k` of the stream for a text with bytes `text`: the digest of the text
/// for the first block, the digest of the little-endian bytes of `32 * k` in the
/// width of `usize`, followed by the text, for the others.
pub open spec fn stream_block(text: Seq<u8>, k: nat) -> Seq<u8> {
    if k == 0 {
        sha256(text)
    } else {
        sha256(le_bytes(32 * k, usize_width()) + text)
    }
}

/// The first `n` bytes of the stream: byte `i` is byte `i % 32` of block `i / 32`.
pub open spec fn stream_bytes(text: Seq<u8>, n: nat) -> Seq<u8> {
    Seq::new(n, |i: int| stream_block(text, (i / 32) as nat)[i % 32])
}

/// The stand-in embedding has exactly as many components as asked for, and is
/// the same for the same text.
pub proof fn lemma_stream_bytes_length(text: Seq<u8>, n: nat)
    ensures
        stream_bytes(text, n).len() == n,
        forall|i: int| 0 <= i < n ==> #[trigger] stream_bytes(text, n)[i] == stream_block(text, (i / 32) as nat)[i % 32],
{
}

/// Byte `i` of the stand-in stream is byte `i % 32` of a SHA-256 digest: of the
/// text's bytes for the first 32 bytes, and for every later block `k` of the
/// `usize`-wide little-endian count `32 * k` followed by the text's bytes, so
/// that every block depends on the text.
pub proof fn lemma_stream_bytes_digests(text: Seq<u8>, n: nat)
    ensures
        stream_bytes(text, n).len() == n,
        forall|i: int| 0 <= i < n && i < 32 ==> #[trigger] stream_bytes(text, n)[i] == sha256(text)[i],
        forall|i: int|
            32 <= i < n ==> #[trigger] stream_bytes(text, n)[i] == sha256(
                le_bytes(32 * ((i / 32) as nat), usize_width()) + text,
            )[i % 32],
{
    assert forall|i: int| 0 <= i < n && i < 32 implies #[trigger] stream_bytes(text, n)[i] == sha256(text)[i] by {
        assert(i / 32 == 0 && i % 32 == i) by (nonlinear_arith)
            requires
                0 <= i < 32,
        ;
    }
    assert forall|i: int|
        32 <= i < n implies #[trigger] stream_bytes(text, n)[i] == sha256(
            le_bytes(32 * ((i / 32) as nat), usize_width()) + text,
        )[i % 32] by {
        assert(i / 32 >= 1) by (nonlinear_arith)
            requires
                32 <= i,
        ;
    }
}

/// The counter bytes write the count: reading `le_bytes(x, w)` back as a
/// little-endian number gives `x` whenever `x` fits in `w` bytes.
pub proof fn lemma_le_bytes_value(x: nat, w: nat)
    requires
        x < pow256(w),
    ensures
        le_bytes(x, w).len() == w,
        le_value(le_bytes(x, w)) == x,
    decreases w,
{
    if w > 0 {
        assert(x / 256 < pow256((w - 1) as nat)) by (nonlinear_arith)
            requires
                x < pow256(w),
                pow256(w) == 256 * pow256((w - 1) as nat),
        ;
        lemma_le_bytes_value(x / 256, (w - 1) as nat);
        let b = seq![(x % 256) as u8];
        let rest = le_bytes(x / 256, (w - 1) as nat);
        assert((b + rest).drop_first() =~= rest);
        assert(x == (x % 256) + 256 * (x / 256)) by (nonlinear_arith);
    }
}

/// `256` to the power `w`.
pub open spec fn pow256(w: nat) -> nat
    decreases w,
{
    if w == 0 {
        1
    } else {
        256 * pow256((w - 1) as nat)
    }
}

/// The number that the bytes `b` write, least significant first.
pub open spec fn le_value(b: Seq<u8>) -> nat
    decreases b.len(),
{
    if b.len() == 0 {
        0
    } else {
        b[0] as nat + 256 * le_value(b.drop_first())
    }
}

proof fn lemma_div_mod_32(b: int, p: int)
    requires
        0 <= b,
        0 <= p < 32,
    ensures
        (32 * b + p) / 32 == b,
        (32 * b + p) % 32 == p,
{
    assert((32 * b + p) / 32 == b && (32 * b + p) % 32 == p) by (nonlinear_arith)
        requires
            0 <= b,
            0 <= p < 32,
    ;
}

/// The bytes from which the stand-in embedding of `text` with `dim` components
/// is made: the first `dim` bytes of the stream.
pub fn embedding_bytes(text: &str, dim: usize) -> (r: Vec<u8>)
    ensures
        r@ == stream_bytes(text.spec_bytes(), dim as nat),
{
    let text_bytes = text.as_bytes();
    let ghost tb = text.spec_bytes();
    let mut out: Vec<u8> = Vec::new();
    let mut digest = sha256_digest(text_bytes);
    let mut block: usize = 0;
    let mut pos: usize = 0;
    while out.len() < dim
        invariant
            text_bytes@ == tb,
            digest@ == stream_block(tb, block as nat),
            digest@.len() == 32,
            pos <= 32,
            out@.len() == 32 * block + pos,
            out@.len() <= dim,
            forall|i: int| 0 <= i < out@.len() ==> out@[i] == (#[trigger] stream_bytes(tb, dim as nat)[i]),
        decreases dim - out@.len(),
    {
        if pos == 32 {
            block = block + 1;
            let mut seed = usize_le_bytes(out.len());
            seed.extend_from_slice(text_bytes);
            assert(seed@ == le_bytes(32 * block as nat, usize_width()) + tb);
            digest = sha256_digest(seed.as_slice());
            pos = 0;
        }
        proof {
            lemma_div_mod_32(block as int, pos as int);
        }
        out.push(digest[pos]);
        pos = pos + 1;
    }
    assert(out@ =~= stream_bytes(tb, dim as nat));
    out
}

} // verus!
