//! The decisions around audio devices: which one, with which configuration, and how mono samples
//! reach its channels.
use vstd::prelude::*;

use crate::codec::SAMPLE_RATE;

verus! {

/// The buffer size that is asked for, in samples: 2 ms.
pub const DESIRED_BUFFER_SAMPLES: u32 = 96;

/// The capacity of the ring buffers, in samples: 200 ms.
pub const RING_BUFFER_CAPACITY: usize = 9600;

/// Dropped samples are reported no more often than this.
pub const REPORT_INTERVAL_NS: u64 = 2_000_000_000;

/// The size of a device's buffer.
#[derive(Clone, Copy, Debug, PartialEq, Eq, Structural)]
pub enum BufferSize {
    /// What the device uses by itself.
    Default,
    /// A number of samples.
    Fixed(u32),
}

/// How a device is opened.
#[derive(Clone, Copy, Debug, PartialEq, Eq, Structural)]
pub struct StreamConfig {
    pub channels: u16,
    pub sample_rate: u32,
    pub buffer_size: BufferSize,
}

pub open spec fn spec_stream_config(channels: u16, buffer_size: BufferSize) -> StreamConfig {
    StreamConfig { channels, sample_rate: SAMPLE_RATE, buffer_size }
}

/// A configuration at our sample rate.
pub fn build_stream_config(channels: u16, buffer_size: BufferSize) -> (config: StreamConfig)
    ensures
        config == spec_stream_config(channels, buffer_size),
{
    StreamConfig { channels, sample_rate: SAMPLE_RATE, buffer_size }
}

/// The configurations to be tried in turn: mono with the small buffer, mono with the device's own
/// buffer, and for a device with several channels the same with these.
pub open spec fn spec_candidate_configs(device_channels: Option<u16>) -> Seq<StreamConfig> {
    let fixed = BufferSize::Fixed(DESIRED_BUFFER_SAMPLES);
    let mono = seq![
        spec_stream_config(1, fixed),
        spec_stream_config(1, BufferSize::Default),
    ];
    match device_channels {
        Some(n) if n > 1 => mono + seq![
            spec_stream_config(n, fixed),
            spec_stream_config(n, BufferSize::Default),
        ],
        _ => mono,
    }
}

/// The configurations to be tried in turn, given how many channels the device has by itself.
pub fn candidate_configs(device_channels: Option<u16>) -> (configs: Vec<StreamConfig>)
    ensures
        configs@ == spec_candidate_configs(device_channels),
{
    let mut configs: Vec<StreamConfig> = Vec::new();
    configs.push(build_stream_config(1, BufferSize::Fixed(DESIRED_BUFFER_SAMPLES)));
    configs.push(build_stream_config(1, BufferSize::Default));
    if let Some(n) = device_channels {
        if n > 1 {
            configs.push(build_stream_config(n, BufferSize::Fixed(DESIRED_BUFFER_SAMPLES)));
            configs.push(build_stream_config(n, BufferSize::Default));
        }
    }
    assert(configs@ =~= spec_candidate_configs(device_channels));
    configs
}

/// Ring buffers hold 200 ms, and buffers of devices are to hold 2 ms.
pub proof fn law_buffer_sizes()
    ensures
        RING_BUFFER_CAPACITY == 9600,
        RING_BUFFER_CAPACITY * 5 == SAMPLE_RATE,
        DESIRED_BUFFER_SAMPLES == 96,
        DESIRED_BUFFER_SAMPLES * 500 == SAMPLE_RATE,
        REPORT_INTERVAL_NS == 2_000_000_000,
{
}

/// Every configuration that is tried is at our sample rate, and mono comes before anything else.
pub proof fn law_candidates_prefer_mono(device_channels: Option<u16>)
    ensures
        spec_candidate_configs(device_channels).len() >= 2,
        spec_candidate_configs(device_channels)[0] == spec_stream_config(
            1,
            BufferSize::Fixed(DESIRED_BUFFER_SAMPLES),
        ),
        forall|i: int|
            0 <= i < spec_candidate_configs(device_channels).len() ==> (
            #[trigger] spec_candidate_configs(device_channels)[i]).sample_rate == SAMPLE_RATE,
{
}

/// The configurations that are tried, in order: mono with 96 samples of buffer, mono with the
/// device's own buffer, and exactly if the device has several channels the same with these; all at
/// 48000 samples a second.
pub proof fn law_candidates_in_order(device_channels: Option<u16>)
    ensures
        ({
            let configs = spec_candidate_configs(device_channels);
            let several = device_channels is Some && device_channels->0 > 1;
            &&& configs.len() == (if several {
                4int
            } else {
                2
            })
            &&& forall|i: int|
                0 <= i < configs.len() ==> (#[trigger] configs[i]).sample_rate == 48000
                    && configs[i].channels == (if i < 2 {
                    1
                } else {
                    device_channels->0
                }) && configs[i].buffer_size == (if i % 2 == 0 {
                    BufferSize::Fixed(96)
                } else {
                    BufferSize::Default
                })
        }),
{
}

/// Whether a device has a name, and that one.
pub open spec fn is_named(device: Option<String>, wanted: Seq<char>) -> bool {
    device matches Some(name) && name@ == wanted
}

/// Where the first device with a name stands. The name of a device need not be known.
pub fn find_device(names: &Vec<Option<String>>, wanted: &String) -> (at: Option<usize>)
    ensures
        match at {
            Some(at) => {
                &&& at < names@.len()
                &&& is_named(names@[at as int], wanted@)
                &&& forall|i: int| 0 <= i < at ==> !is_named(#[trigger] names@[i], wanted@)
            },
            None => forall|i: int|
                0 <= i < names@.len() ==> !is_named(#[trigger] names@[i], wanted@),
        },
{
    let mut i: usize = 0;
    while i < names.len()
        invariant
            i <= names@.len(),
            forall|j: int| 0 <= j < i ==> !is_named(#[trigger] names@[j], wanted@),
        decreases names@.len() - i,
    {
        if let Some(name) = &names[i] {
            if *name == *wanted {
                return Some(i);
            }
        }
        i = i + 1;
    }
    None
}

/// Counts samples that were dropped because a ring buffer was full, and says when to report it.
#[derive(Clone, Copy, Debug, PartialEq, Eq, Structural)]
pub struct OverflowMeter {
    pub dropped: usize,
    pub last_report_ns: Option<u64>,
}

impl OverflowMeter {
    /// Whether a report is in order: the first one at once, others after a while.
    pub open spec fn may_report(self, now_ns: u64) -> bool {
        self.last_report_ns matches Some(last) ==> now_ns - last >= REPORT_INTERVAL_NS
    }

    /// Dropped samples in all.
    pub open spec fn total(self, more: usize) -> usize {
        if self.dropped + more > usize::MAX {
            usize::MAX
        } else {
            (self.dropped + more) as usize
        }
    }

    /// The meter after some of the samples that were offered were written, and the report.
    pub open spec fn recorded(self, offered: usize, written: usize, now_ns: u64) -> (
        OverflowMeter,
        Option<usize>,
    ) {
        if written >= offered {
            (self, None)
        } else {
            let total = self.total((offered - written) as usize);
            if self.may_report(now_ns) {
                (OverflowMeter { dropped: 0, last_report_ns: Some(now_ns) }, Some(total))
            } else {
                (OverflowMeter { dropped: total, ..self }, None)
            }
        }
    }

    pub fn new() -> (meter: Self)
        ensures
            meter == (OverflowMeter { dropped: 0, last_report_ns: None }),
    {
        OverflowMeter { dropped: 0, last_report_ns: None }
    }

    /// Notes how many of the samples that were offered were written. Gives the number of samples
    /// dropped since the last report if there is one to be made now.
    pub fn record(&mut self, offered: usize, written: usize, now_ns: u64) -> (report: Option<usize>)
        ensures
            (*final(self), report) == old(self).recorded(offered, written, now_ns),
            written >= offered ==> report is None && *final(self) == *old(self),
            written < offered && old(self).may_report(now_ns) ==> report == Some(
                old(self).total((offered - written) as usize),
            ) && *final(self) == (OverflowMeter { dropped: 0, last_report_ns: Some(now_ns) }),
            written < offered && !old(self).may_report(now_ns) ==> report is None && *final(self)
                == (OverflowMeter {
                dropped: old(self).total((offered - written) as usize),
                ..*old(self)
            }),
    {
        if written >= offered {
            return None;
        }
        let total: usize = self.dropped.saturating_add(offered - written);
        let due: bool = match self.last_report_ns {
            Some(last) => now_ns >= last && now_ns - last >= REPORT_INTERVAL_NS,
            None => true,
        };
        if due {
            self.dropped = 0;
            self.last_report_ns = Some(now_ns);
            Some(total)
        } else {
            self.dropped = total;
            None
        }
    }
}

/// Dropped samples are reported at once the first time, and then when two seconds have passed since
/// the last report.
pub proof fn law_reports_are_two_seconds_apart(meter: OverflowMeter, now_ns: u64)
    ensures
        meter.last_report_ns is None ==> meter.may_report(now_ns),
        meter.last_report_ns matches Some(last) ==> meter.may_report(now_ns) == (now_ns >= last
            + 2_000_000_000),
{
}

/// Every dropped sample is counted.
pub proof fn law_dropped_samples_add_up(meter: OverflowMeter, more: usize)
    requires
        meter.dropped + more <= usize::MAX,
    ensures
        meter.total(more) == meter.dropped + more,
{
}

/// No dropped sample goes unreported or is reported twice: what is reported and what is still to be
/// is what was to be reported before and what was dropped now. A report comes exactly when samples
/// were dropped and the last one was two seconds ago or more, and its time is then noted.
pub proof fn law_every_dropped_sample_is_reported(
    meter: OverflowMeter,
    offered: usize,
    written: usize,
    now_ns: u64,
)
    requires
        written <= offered,
        meter.dropped + offered <= usize::MAX,
    ensures
        ({
            let (after, report) = meter.recorded(offered, written, now_ns);
            let reported = match report {
                Some(n) => n as int,
                None => 0,
            };
            &&& reported + after.dropped == meter.dropped + (offered - written)
            &&& report is Some == (written < offered && (meter.last_report_ns is None || now_ns
                - meter.last_report_ns->0 >= 2_000_000_000))
            &&& report is Some ==> after.dropped == 0 && after.last_report_ns == Some(now_ns)
            &&& report is None ==> after.last_report_ns == meter.last_report_ns
        }),
{
}

/// The device that is found has the name that is wanted and is the first one that does; if none is
/// found none has it.
pub proof fn law_first_device_with_the_name(
    names: &Vec<Option<String>>,
    wanted: &String,
    at: Option<usize>,
    i: int,
)
    requires
        call_ensures(find_device, (names, wanted), at),
        0 <= i < names@.len(),
    ensures
        at matches Some(k) ==> k < names@.len() && names@[k as int] is Some && names@[k as int]->0@
            == wanted@,
        names@[i] is Some && names@[i]->0@ == wanted@ ==> at is Some && at->0 <= i,
{
    if names@[i] is Some && names@[i]->0@ == wanted@ {
        assert(is_named(names@[i], wanted@));
    }
}

/// Fills what was not read of a buffer with silence.
pub fn fill_silence<T: Copy>(data: &mut [T], read: usize, silence: T)
    ensures
        final(data)@.len() == old(data)@.len(),
        forall|k: int|
            0 <= k < final(data)@.len() ==> (#[trigger] final(data)@[k]) == (if k < read {
                old(data)@[k]
            } else {
                silence
            }),
{
    let ghost before = data@;
    let len: usize = data.len();
    let mut k: usize = read;
    while k < len
        invariant
            read <= k,
            data@.len() == before.len() == len,
            forall|j: int|
                0 <= j < len ==> (#[trigger] data@[j]) == (if read <= j < k {
                    silence
                } else {
                    before[j]
                }),
        decreases len - k,
    {
        data[k] = silence;
        k = k + 1;
    }
}

/// The sample for a place of a buffer with several channels: that of its frame in the mono samples,
/// or silence where these end.
pub open spec fn upmixed<T>(mono: Seq<T>, read: usize, channels: usize, silence: T, k: int) -> T {
    if k / (channels as int) < read {
        mono[k / (channels as int)]
    } else {
        silence
    }
}

/// Every channel of a frame gets the mono sample of that frame, or silence where there is none.
pub proof fn law_channels_get_the_same_sample<T>(
    mono: Seq<T>,
    read: usize,
    channels: usize,
    silence: T,
    frame: int,
    channel: int,
)
    requires
        0 <= frame,
        0 <= channel < channels,
    ensures
        upmixed(mono, read, channels, silence, frame * channels + channel) == (if frame < read {
            mono[frame]
        } else {
            silence
        }),
{
    vstd::arithmetic::div_mod::lemma_fundamental_div_mod_converse(
        frame * channels + channel,
        channels as int,
        frame,
        channel,
    );
}

/// Spreads mono samples, of which `read` were there, over all channels of a buffer. What makes no
/// whole frame at the end of the buffer is left as it is.
pub fn upmix<T: Copy>(mono: &[T], read: usize, channels: usize, silence: T, data: &mut [T])
    requires
        channels > 0,
        mono@.len() == old(data)@.len() / (channels as nat),
    ensures
        final(data)@.len() == old(data)@.len(),
        forall|k: int|
            0 <= k < final(data)@.len() ==> (#[trigger] final(data)@[k]) == (if k < channels
                * mono@.len() {
                upmixed(mono@, read, channels, silence, k)
            } else {
                old(data)@[k]
            }),
{
    let ghost before = data@;
    let frames: usize = mono.len();
    let len: usize = data.len();
    proof {
        vstd::arithmetic::div_mod::lemma_fundamental_div_mod(len as int, channels as int);
        vstd::arithmetic::div_mod::lemma_mod_bound(len as int, channels as int);
        assert(channels * frames <= len);
    }
    let mut i: usize = 0;
    let mut k: usize = 0;
    while i < frames
        invariant
            i <= frames == mono@.len(),
            channels > 0,
            k == channels * i,
            channels * frames <= len,
            data@.len() == before.len() == len,
            forall|j: int|
                0 <= j < len ==> (#[trigger] data@[j]) == (if j < k {
                    upmixed(mono@, read, channels, silence, j)
                } else {
                    before[j]
                }),
        decreases frames - i,
    {
        let sample: T = if i < read {
            mono[i]
        } else {
            silence
        };
        assert(channels * (i + 1) == channels * i + channels) by (nonlinear_arith);
        assert(channels * (i + 1) <= channels * frames) by (nonlinear_arith)
            requires
                i + 1 <= frames,
        ;
        let end: usize = k + channels;
        while k < end
            invariant
                i < frames == mono@.len(),
                channels > 0,
                channels * i <= k <= end <= len,
                end == channels * i + channels,
                sample == (if i < read {
                    mono@[i as int]
                } else {
                    silence
                }),
                data@.len() == before.len() == len,
                forall|j: int|
                    0 <= j < len ==> (#[trigger] data@[j]) == (if j < k {
                        upmixed(mono@, read, channels, silence, j)
                    } else {
                        before[j]
                    }),
            decreases end - k,
        {
            assert(k as int / channels as int == i) by (nonlinear_arith)
                requires
                    channels > 0,
                    channels * i <= k < channels * i + channels,
            ;
            data[k] = sample;
            k = k + 1;
        }
        i = i + 1;
    }
}

} // verus!
