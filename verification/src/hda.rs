//! Intel HD Audio sound: the controller's state, and the PCM that a tone
//! or a DPS1 clip becomes (48 kHz, 16-bit stereo) before it is streamed.
use vstd::prelude::*;
use crate::bytes::le32;
use crate::pci::PciDevice;

verus! {

pub const SAMPLE_RATE: u32 = 48000;
/// Amplitude of a tone, about 40% of full scale.
pub const TONE_VOLUME: i16 = 12000;

/// A set-up controller: registers, PCI function, stream and codec path.
pub struct HdaController {
    pub mmio_base: usize,
    pub pci_dev: PciDevice,
    pub output_stream_offset: usize,
    pub corb_wp: u8,
    pub dac_nid: u8,
    pub pin_nid: u8,
    pub codec_addr: u8,
    pub initialized: bool,
}

pub open spec fn ready(ctrl: Option<HdaController>) -> bool {
    ctrl matches Some(c) && c.initialized
}

/// Whether a controller is set up and can play.
pub fn is_ready(ctrl: &Option<HdaController>) -> (r: bool)
    ensures
        r == ready(*ctrl),
{
    match ctrl {
        Some(c) => c.initialized,
        None => false,
    }
}

/// Samples of the square wave of period `p`: high the first half.
pub open spec fn tone_sample(i: nat, p: nat) -> i16 {
    if i % p < p / 2 {
        TONE_VOLUME
    } else {
        (-12000) as i16
    }
}

/// The first `n` stereo frames of that wave, left and right alike.
pub open spec fn tone_pcm(n: nat, p: nat) -> Seq<i16>
    decreases n,
{
    if n == 0 {
        Seq::empty()
    } else {
        tone_pcm((n - 1) as nat, p) + seq![tone_sample((n - 1) as nat, p), tone_sample((n - 1) as nat, p)]
    }
}

/// Samples per period of a tone of `hz` (at least 20 Hz, at least two
/// samples).
pub open spec fn tone_period(hz: u32) -> nat {
    let f = if hz < 20 { 20 } else { hz as int };
    let p = (SAMPLE_RATE as int) / f;
    if p < 2 { 2 } else { p as nat }
}

/// The PCM of a square-wave tone of `hz` lasting `duration_ms`; nothing
/// when the controller is not ready or the tone is empty.
pub fn play_tone(ctrl: &Option<HdaController>, hz: u32, duration_ms: u64) -> (r: Vec<i16>)
    requires
        duration_ms <= u64::MAX / 48000,
        48000 * duration_ms / 1000 <= usize::MAX / 2,
    ensures
        !ready(*ctrl) || hz == 0 || duration_ms == 0 ==> r@.len() == 0,
        ready(*ctrl) && hz != 0 && duration_ms != 0 ==> r@ == tone_pcm((48000 * duration_ms / 1000) as nat, tone_period(hz)),
{
    if !is_ready(ctrl) || hz == 0 || duration_ms == 0 {
        return Vec::new();
    }
    let total: usize = (SAMPLE_RATE as u64 * duration_ms / 1000) as usize;
    let f: u32 = if hz < 20 { 20 } else { hz };
    let q: u32 = SAMPLE_RATE / f;
    let period: usize = if q < 2 { 2 } else { q as usize };
    let mut pcm: Vec<i16> = Vec::new();
    let mut i: usize = 0;
    while i < total
        invariant
            i <= total,
            period == tone_period(hz),
            period >= 2,
            pcm@ == tone_pcm(i as nat, period as nat),
        decreases total - i,
    {
        let phase: usize = i % period;
        let sample: i16 = if phase < period / 2 { TONE_VOLUME } else { -TONE_VOLUME };
        pcm.push(sample);
        pcm.push(sample);
        i = i + 1;
        assert(pcm@ =~= tone_pcm(i as nat, period as nat));
    }
    pcm
}

/// A DPS1 byte (unsigned, 128 is silence) as a 16-bit sample.
pub open spec fn dps_sample(s: u8) -> i16 {
    ((s as int - 128) * 180) as i16
}

/// The clip resampled by repeating each sample `ratio` times, in stereo.
pub open spec fn dps_pcm(samples: Seq<u8>, ratio: nat) -> Seq<i16>
    decreases samples.len(),
{
    if samples.len() == 0 {
        Seq::empty()
    } else {
        dps_pcm(samples.drop_last(), ratio) + Seq::new(2 * ratio, |j: int| dps_sample(samples.last()))
    }
}

/// The repetition factor for a clip recorded at `rate`: 48000 / rate,
/// kept between 1 and 24.
pub open spec fn dps_ratio(rate: u32) -> nat {
    let q = (SAMPLE_RATE as int) / (if rate < 1 { 1 } else { rate as int });
    if q < 1 { 1 } else if q > 24 { 24 } else { q as nat }
}

pub open spec fn dps_magic_ok(d: Seq<u8>) -> bool {
    d.len() >= 12 && d[0] == 0x44 && d[1] == 0x50 && d[2] == 0x53 && d[3] == 0x31
}

/// The PCM of a DPS1 clip: magic "DPS1", sample rate and sample count
/// (little-endian 32-bit), then unsigned 8-bit samples.
pub fn play_dps(ctrl: &Option<HdaController>, dps_data: &[u8]) -> (r: Result<Vec<i16>, &'static str>)
    requires
        dps_data@.len() * 48 <= usize::MAX,
    ensures
        !ready(*ctrl) ==> (r matches Err(m) && m@ == "HDA controller not ready"@),
        ready(*ctrl) && !dps_magic_ok(dps_data@) ==> (r matches Err(m) && m@ == "Not DPS1 audio format"@),
        ready(*ctrl) && dps_magic_ok(dps_data@) && (dps_data@.len() < 12 + le32(dps_data@, 8) || le32(dps_data@, 4) == 0)
            ==> (r matches Err(m) && m@ == "Corrupted DPS1 data"@),
        ready(*ctrl) && dps_magic_ok(dps_data@) && !(dps_data@.len() < 12 + le32(dps_data@, 8) || le32(dps_data@, 4) == 0)
            ==> (r matches Ok(v) && v@ == dps_pcm(
            dps_data@.subrange(12, 12 + le32(dps_data@, 8)),
            dps_ratio(le32(dps_data@, 4) as u32),
        )),
{
    if !is_ready(ctrl) {
        return Err("HDA controller not ready");
    }
    if dps_data.len() < 12 || !(dps_data[0] == 0x44 && dps_data[1] == 0x50 && dps_data[2] == 0x53 && dps_data[3] == 0x31) {
        return Err("Not DPS1 audio format");
    }
    let rate: u32 = crate::bytes::rd_le32(dps_data, 4);
    let num_samples: usize = crate::bytes::rd_le32(dps_data, 8) as usize;
    if dps_data.len() - 12 < num_samples || rate == 0 {
        return Err("Corrupted DPS1 data");
    }
    let q: u32 = SAMPLE_RATE / rate;
    let ratio: usize = if q < 1 { 1 } else if q > 24 { 24 } else { q as usize };
    let ghost samples = dps_data@.subrange(12, 12 + num_samples);
    let mut out: Vec<i16> = Vec::new();
    let mut k: usize = 0;
    assert(samples.subrange(0, 0) =~= Seq::<u8>::empty());
    while k < num_samples
        invariant
            12 + num_samples <= dps_data@.len(),
            dps_data@.len() * 48 <= usize::MAX,
            samples == dps_data@.subrange(12, 12 + num_samples),
            1 <= ratio <= 24,
            k <= num_samples,
            out@ == dps_pcm(samples.subrange(0, k as int), ratio as nat),
            out@.len() == 2 * ratio * k,
        decreases num_samples - k,
    {
        let s: u8 = dps_data[12 + k];
        let v: i16 = ((s as i16) - 128) * 180;
        let ghost base = out@;
        let mut t: usize = 0;
        while t < ratio
            invariant
                1 <= ratio <= 24,
                t <= ratio,
                out@ == base + Seq::new(2 * t as nat, |j: int| v),
            decreases ratio - t,
        {
            out.push(v);
            out.push(v);
            t = t + 1;
            assert(out@ =~= base + Seq::new(2 * t as nat, |j: int| v));
        }
        assert(samples.subrange(0, k + 1).drop_last() =~= samples.subrange(0, k as int));
        assert(samples.subrange(0, k + 1).last() == s);
        assert(v == dps_sample(s));
        assert(out@.len() == 2 * ratio * k + 2 * ratio) by (nonlinear_arith)
            requires
                out@.len() == base.len() + 2 * ratio,
                base.len() == 2 * ratio * k,
        ;
        k = k + 1;
        assert(out@.len() == 2 * ratio * k) by (nonlinear_arith)
            requires
                out@.len() == 2 * ratio * (k - 1) + 2 * ratio,
        ;
    }
    assert(samples.subrange(0, num_samples as int) =~= samples);
    Ok(out)
}

} // verus!
