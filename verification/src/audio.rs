//! Framing of Free Ski's synthesised sound cues as mono 16-bit PCM WAVE files.
use vstd::prelude::*;

verus! {

/// The sound cues Free Ski plays.
#[derive(Clone, Copy, Debug, PartialEq, Eq, Structural)]
pub enum Cue {
    Carve,
    Jump,
    Crash,
    Gate,
    Miss,
    Warning,
    Caught,
    Finish,
}

/// The two bytes of `v`, least significant first.
pub open spec fn le16(v: u16) -> Seq<u8> {
    seq![(v % 256) as u8, (v / 256) as u8]
}

/// The four bytes of `v`, least significant first.
pub open spec fn le32(v: u32) -> Seq<u8> {
    seq![(v % 256) as u8, ((v / 256) % 256) as u8, ((v / 65536) % 256) as u8, (v / 16777216) as u8]
}

/// The samples, each as two little-endian bytes of its two's complement.
pub open spec fn pcm(samples: Seq<i16>) -> Seq<u8>
    decreases samples.len(),
{
    if samples.len() == 0 {
        seq![]
    } else {
        pcm(samples.drop_last()) + le16(samples.last() as u16)
    }
}

/// The 44-byte header of a mono 16-bit PCM file of `n` samples at `rate` Hz.
pub open spec fn wav_header(n: nat, rate: u32) -> Seq<u8> {
    seq![82u8, 73, 70, 70] + le32((36 + 2 * n) as u32) + seq![87u8, 65, 86, 69, 102, 109, 116, 32]
        + le32(16) + le16(1) + le16(1) + le32(rate) + le32((2 * rate) as u32) + le16(2) + le16(16)
        + seq![100u8, 97, 116, 97] + le32((2 * n) as u32)
}

fn push_le16(out: &mut Vec<u8>, v: u16)
    ensures
        final(out)@ == old(out)@ + le16(v),
{
    out.push((v % 256) as u8);
    out.push((v / 256) as u8);
    assert(final(out)@ =~= old(out)@ + le16(v));
}

fn push_le32(out: &mut Vec<u8>, v: u32)
    ensures
        final(out)@ == old(out)@ + le32(v),
{
    out.push((v % 256) as u8);
    out.push(((v / 256) % 256) as u8);
    out.push(((v / 65536) % 256) as u8);
    out.push((v / 16777216) as u8);
    assert(final(out)@ =~= old(out)@ + le32(v));
}

fn push_bytes4(out: &mut Vec<u8>, a: u8, b: u8, c: u8, d: u8)
    ensures
        final(out)@ == old(out)@ + seq![a, b, c, d],
{
    out.push(a);
    out.push(b);
    out.push(c);
    out.push(d);
    assert(final(out)@ =~= old(out)@ + seq![a, b, c, d]);
}

/// A complete WAVE file: the header for `samples.len()` samples at `rate` Hz,
/// then the samples.
pub fn wav_bytes(samples: &Vec<i16>, rate: u32) -> (r: Vec<u8>)
    requires
        36 + 2 * samples@.len() <= u32::MAX,
        2 * rate <= u32::MAX,
    ensures
        r@ == wav_header(samples@.len(), rate) + pcm(samples@),
        r@.len() == 44 + 2 * samples@.len(),
{
    let n = samples.len() as u32;
    let mut out: Vec<u8> = Vec::new();
    push_bytes4(&mut out, 82, 73, 70, 70);
    push_le32(&mut out, 36 + n * 2);
    push_bytes4(&mut out, 87, 65, 86, 69);
    push_bytes4(&mut out, 102, 109, 116, 32);
    push_le32(&mut out, 16);
    push_le16(&mut out, 1);
    push_le16(&mut out, 1);
    push_le32(&mut out, rate);
    push_le32(&mut out, rate * 2);
    push_le16(&mut out, 2);
    push_le16(&mut out, 16);
    push_bytes4(&mut out, 100, 97, 116, 97);
    push_le32(&mut out, n * 2);
    let ghost header = out@;
    proof {
        assert(header =~= wav_header(samples@.len(), rate));
    }
    let mut k: usize = 0;
    while k < samples.len()
        invariant
            0 <= k <= samples@.len(),
            header.len() == 44,
            out@ == header + pcm(samples@.take(k as int)),
        decreases samples@.len() - k,
    {
        proof {
            assert(samples@.take(k + 1).drop_last() =~= samples@.take(k as int));
            assert(samples@.take(k + 1).last() == samples@[k as int]);
        }
        push_le16(&mut out, samples[k] as u16);
        proof {
            assert(out@ =~= header + pcm(samples@.take(k + 1)));
        }
        k = k + 1;
    }
    proof {
        assert(samples@.take(samples@.len() as int) =~= samples@);
        lemma_pcm_len(samples@);
    }
    out
}

/// The little-endian 16-bit number stored at bytes `k` and `k + 1`.
pub open spec fn u16_at(bytes: Seq<u8>, k: int) -> int {
    bytes[k] + 256 * bytes[k + 1]
}

/// The little-endian 32-bit number stored at bytes `k` to `k + 3`.
pub open spec fn u32_at(bytes: Seq<u8>, k: int) -> int {
    bytes[k] + 256 * bytes[k + 1] + 65536 * bytes[k + 2] + 16777216 * bytes[k + 3]
}

proof fn lemma_le16_reads(v: u16)
    ensures
        le16(v).len() == 2,
        u16_at(le16(v), 0) == v,
{
    assert((v % 256) as u8 as int == v % 256);
    assert((v / 256) as u8 as int == v / 256);
}

proof fn lemma_le32_reads(v: u32)
    ensures
        le32(v).len() == 4,
        u32_at(le32(v), 0) == v,
{
    assert(((v % 256) as u8) as int == v % 256);
    assert((((v / 256) % 256) as u8) as int == (v / 256) % 256);
    assert((((v / 65536) % 256) as u8) as int == (v / 65536) % 256);
    assert(((v / 16777216) as u8) as int == v / 16777216);
}

/// The header read back field by field: a RIFF/WAVE file whose `fmt ` chunk
/// describes one channel of 16-bit PCM at `rate` Hz (so two bytes per frame and
/// `2 * rate` bytes a second) and whose `data` chunk holds `2 * n` bytes.
pub proof fn lemma_wav_header_fields(n: nat, rate: u32)
    requires
        36 + 2 * n <= u32::MAX,
        2 * rate <= u32::MAX,
    ensures
        ({
            let h = wav_header(n, rate);
            let channels = u16_at(h, 22);
            let bits = u16_at(h, 34);
            &&& h.len() == 44
            &&& h[0] == 82 && h[1] == 73 && h[2] == 70 && h[3] == 70
            &&& u32_at(h, 4) == 36 + 2 * n
            &&& h[8] == 87 && h[9] == 65 && h[10] == 86 && h[11] == 69
            &&& h[12] == 102 && h[13] == 109 && h[14] == 116 && h[15] == 32
            &&& u32_at(h, 16) == 16
            &&& u16_at(h, 20) == 1
            &&& channels == 1
            &&& u32_at(h, 24) == rate
            &&& bits == 16
            &&& u16_at(h, 32) == channels * bits / 8
            &&& u32_at(h, 28) == rate * channels * bits / 8
            &&& h[36] == 100 && h[37] == 97 && h[38] == 116 && h[39] == 97
            &&& u32_at(h, 40) == 2 * n
        }),
{
    let h = wav_header(n, rate);
    lemma_le32_reads((36 + 2 * n) as u32);
    lemma_le32_reads(16);
    lemma_le16_reads(1);
    lemma_le32_reads(rate);
    lemma_le32_reads((2 * rate) as u32);
    lemma_le16_reads(2);
    lemma_le16_reads(16);
    lemma_le32_reads((2 * n) as u32);
    let a = le32((36 + 2 * n) as u32);
    let b = le32(16);
    let c = le16(1);
    let e = le32(rate);
    let f = le32((2 * rate) as u32);
    let g = le16(2);
    let k = le16(16);
    let m = le32((2 * n) as u32);
    assert(h[4] == a[0] && h[5] == a[1] && h[6] == a[2] && h[7] == a[3]);
    assert(h[16] == b[0] && h[17] == b[1] && h[18] == b[2] && h[19] == b[3]);
    assert(h[20] == c[0] && h[21] == c[1] && h[22] == c[0] && h[23] == c[1]);
    assert(h[24] == e[0] && h[25] == e[1] && h[26] == e[2] && h[27] == e[3]);
    assert(h[28] == f[0] && h[29] == f[1] && h[30] == f[2] && h[31] == f[3]);
    assert(h[32] == g[0] && h[33] == g[1]);
    assert(h[34] == k[0] && h[35] == k[1]);
    assert(h[40] == m[0] && h[41] == m[1] && h[42] == m[2] && h[43] == m[3]);
}

/// Each sample is stored as its two's complement, least significant byte first,
/// two bytes per sample in order.
pub proof fn lemma_pcm_samples(s: Seq<i16>)
    ensures
        pcm(s).len() == 2 * s.len(),
        forall|j: int| 0 <= j < s.len() ==> #[trigger] u16_at(pcm(s), 2 * j) == (s[j] as u16),
    decreases s.len(),
{
    lemma_pcm_len(s);
    if s.len() > 0 {
        let front = s.drop_last();
        lemma_pcm_samples(front);
        let last = le16(s.last() as u16);
        lemma_le16_reads(s.last() as u16);
        assert forall|j: int| 0 <= j < s.len() implies #[trigger] u16_at(pcm(s), 2 * j) == (s[j] as u16) by {
            if j < front.len() {
                assert(pcm(s)[2 * j] == pcm(front)[2 * j]);
                assert(pcm(s)[2 * j + 1] == pcm(front)[2 * j + 1]);
                assert(u16_at(pcm(front), 2 * j) == (front[j] as u16));
            } else {
                assert(pcm(s)[2 * j] == last[0]);
                assert(pcm(s)[2 * j + 1] == last[1]);
            }
        }
    }
}

proof fn lemma_pcm_len(s: Seq<i16>)
    ensures
        pcm(s).len() == 2 * s.len(),
    decreases s.len(),
{
    if s.len() > 0 {
        lemma_pcm_len(s.drop_last());
    }
}

} // verus!
