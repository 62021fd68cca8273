//! What a video stream is configured with, what its client negotiated, and what it reports.
use super::rate::{RateFactor, EIGHT_BITS};
use core::time::Duration;
use vstd::prelude::*;
use vstd::std_specs::convert::TryFromSpec;

verus! {

/// Configuration for the video stream.
#[derive(Debug)]
pub struct VideoStreamConfig {
    /// Port to use for streaming video data.
    pub port: u16,
    /// What percentage of data packets should be parity packets.
    pub fec_percentage: u8,
    /// Whether to enable video stream encryption (AES-128-GCM).
    pub encrypt: bool,
    /// Whether to warn when a single frame takes longer to encode and packetize
    /// than the frame budget.
    pub log_frame_spikes: bool,
    /// Send-side packet pacing: a frame's packets are spread out at this
    /// multiple of the bitrate instead of being sent back-to-back. Zero
    /// disables pacing; values between zero and one are clamped up to one.
    pub pacing_rate_factor: RateFactor,
}

impl Clone for VideoStreamConfig {
    fn clone(&self) -> (copy: Self)
        ensures
            copy == *self,
    {
        Self {
            port: self.port,
            fec_percentage: self.fec_percentage,
            encrypt: self.encrypt,
            log_frame_spikes: self.log_frame_spikes,
            pacing_rate_factor: self.pacing_rate_factor,
        }
    }
}

impl Default for VideoStreamConfig {
    fn default() -> (config: Self)
        ensures
            config.port == 47998,
            config.fec_percentage == 20,
            !config.encrypt,
            !config.log_frame_spikes,
            config.pacing_rate_factor.bits == EIGHT_BITS,
    {
        Self {
            port: 47998,
            fec_percentage: 20,
            encrypt: false,
            log_frame_spikes: false,
            pacing_rate_factor: RateFactor { bits: EIGHT_BITS },
        }
    }
}

/// Per-frame encoding statistics emitted by the video pipeline.
#[derive(Debug)]
pub struct FrameStats {
    /// Time the frame spent waiting in the compositor's output channel.
    pub channel_wait: Duration,
    /// Time spent importing the DMA-BUF into Vulkan.
    pub import: Duration,
    /// Time spent on GPU color conversion.
    pub convert: Duration,
    /// Time spent encoding the frame.
    pub encode: Duration,
    /// Time spent packetizing the encoded data.
    pub packetize: Duration,
    /// Time spent sending the packets over the channel.
    pub send: Duration,
    /// Total end-to-end latency for this frame.
    pub total: Duration,
    /// Number of bytes encoded for this frame.
    pub encoded_bytes: usize,
    /// Whether this frame is a key (IDR) frame.
    pub is_key_frame: bool,
}

impl Clone for FrameStats {
    fn clone(&self) -> (copy: Self)
        ensures
            copy == *self,
    {
        Self {
            channel_wait: self.channel_wait,
            import: self.import,
            convert: self.convert,
            encode: self.encode,
            packetize: self.packetize,
            send: self.send,
            total: self.total,
            encoded_bytes: self.encoded_bytes,
            is_key_frame: self.is_key_frame,
        }
    }
}

/// Video codec of a stream.
#[derive(Debug, Clone, Copy, PartialEq, Eq, Structural)]
pub enum VideoFormat {
    H264,
    Hevc,
    Av1,
}

impl Default for VideoFormat {
    fn default() -> (format: Self)
        ensures
            format == VideoFormat::H264,
    {
        VideoFormat::H264
    }
}

impl TryFrom<u32> for VideoFormat {
    type Error = ();

    fn try_from(value: u32) -> (res: Result<Self, Self::Error>) {
        match value {
            0 => Ok(Self::H264),
            1 => Ok(Self::Hevc),
            2 => Ok(Self::Av1),
            _ => Err(()),
        }
    }
}

impl vstd::std_specs::convert::TryFromSpecImpl<u32> for VideoFormat {
    open spec fn obeys_try_from_spec() -> bool {
        true
    }

    open spec fn try_from_spec(value: u32) -> Result<Self, Self::Error> {
        if value == 0 {
            Ok(VideoFormat::H264)
        } else if value == 1 {
            Ok(VideoFormat::Hevc)
        } else if value == 2 {
            Ok(VideoFormat::Av1)
        } else {
            Err(())
        }
    }
}

/// Dynamic range of a stream.
#[derive(Debug, Clone, Copy, PartialEq, Eq, Structural)]
pub enum VideoDynamicRange {
    Sdr,
    Hdr,
}

impl Default for VideoDynamicRange {
    fn default() -> (range: Self)
        ensures
            range == VideoDynamicRange::Sdr,
    {
        VideoDynamicRange::Sdr
    }
}

impl TryFrom<u32> for VideoDynamicRange {
    type Error = ();

    fn try_from(value: u32) -> (res: Result<Self, Self::Error>) {
        match value {
            0 => Ok(Self::Sdr),
            1 => Ok(Self::Hdr),
            _ => Err(()),
        }
    }
}

impl vstd::std_specs::convert::TryFromSpecImpl<u32> for VideoDynamicRange {
    open spec fn obeys_try_from_spec() -> bool {
        true
    }

    open spec fn try_from_spec(value: u32) -> Result<Self, Self::Error> {
        if value == 0 {
            Ok(VideoDynamicRange::Sdr)
        } else if value == 1 {
            Ok(VideoDynamicRange::Hdr)
        } else {
            Err(())
        }
    }
}

/// Chroma sampling of a stream.
#[derive(Debug, Clone, Copy, PartialEq, Eq, Structural)]
pub enum VideoChromaSampling {
    Yuv420,
    Yuv444,
}

impl Default for VideoChromaSampling {
    fn default() -> (sampling: Self)
        ensures
            sampling == VideoChromaSampling::Yuv420,
    {
        VideoChromaSampling::Yuv420
    }
}

impl TryFrom<u32> for VideoChromaSampling {
    type Error = ();

    fn try_from(value: u32) -> (res: Result<Self, Self::Error>) {
        match value {
            0 => Ok(Self::Yuv420),
            1 => Ok(Self::Yuv444),
            _ => Err(()),
        }
    }
}

impl vstd::std_specs::convert::TryFromSpecImpl<u32> for VideoChromaSampling {
    open spec fn obeys_try_from_spec() -> bool {
        true
    }

    open spec fn try_from_spec(value: u32) -> Result<Self, Self::Error> {
        if value == 0 {
            Ok(VideoChromaSampling::Yuv420)
        } else if value == 1 {
            Ok(VideoChromaSampling::Yuv444)
        } else {
            Err(())
        }
    }
}

/// The numbers by which a client names formats, dynamic ranges and chroma samplings,
/// each counted up from zero: a number names one exactly where it is below how many
/// there are, and each has its own.
pub proof fn choices_are_counted_from_zero(value: u32)
    ensures
        <VideoFormat as TryFromSpec<u32>>::obeys_try_from_spec(),
        <VideoDynamicRange as TryFromSpec<u32>>::obeys_try_from_spec(),
        <VideoChromaSampling as TryFromSpec<u32>>::obeys_try_from_spec(),
        <VideoFormat as TryFromSpec<u32>>::try_from_spec(value) is Ok <==> value < 3,
        <VideoFormat as TryFromSpec<u32>>::try_from_spec(value) matches Ok(format) ==> {
            &&& format is H264 <==> value == 0
            &&& format is Hevc <==> value == 1
            &&& format is Av1 <==> value == 2
        },
        <VideoDynamicRange as TryFromSpec<u32>>::try_from_spec(value) is Ok <==> value < 2,
        <VideoDynamicRange as TryFromSpec<u32>>::try_from_spec(value) matches Ok(range) ==> {
            &&& range is Sdr <==> value == 0
            &&& range is Hdr <==> value == 1
        },
        <VideoChromaSampling as TryFromSpec<u32>>::try_from_spec(value) is Ok <==> value < 2,
        <VideoChromaSampling as TryFromSpec<u32>>::try_from_spec(value) matches Ok(sampling) ==> {
            &&& sampling is Yuv420 <==> value == 0
            &&& sampling is Yuv444 <==> value == 1
        },
{
}

/// What a client negotiated for its video stream.
#[derive(Debug)]
pub struct VideoStreamContext {
    /// Width of the video stream in pixels.
    pub width: u32,
    /// Height of the video stream in pixels.
    pub height: u32,
    /// Frames per second of the video stream.
    pub fps: u32,
    /// Size of each encoded packet in bytes.
    pub packet_size: usize,
    /// Target bitrate for the video stream in bits per second.
    pub bitrate: usize,
    /// Minimum number of FEC packets to send along with each frame.
    pub minimum_fec_packets: u32,
    /// Whether to apply QoS markings to video stream packets.
    pub qos: bool,
    /// Video format to use for encoding the stream.
    pub video_format: VideoFormat,
    /// Dynamic range of the video stream.
    pub dynamic_range: VideoDynamicRange,
    /// Chroma sampling type for the video stream.
    pub chroma_sampling_type: VideoChromaSampling,
    /// Maximum number of reference frames for the video encoder.
    pub max_reference_frames: u32,
    /// Whether the client has enabled video encryption.
    pub encrypt_video: bool,
}

impl Clone for VideoStreamContext {
    fn clone(&self) -> (copy: Self)
        ensures
            copy == *self,
    {
        Self {
            width: self.width,
            height: self.height,
            fps: self.fps,
            packet_size: self.packet_size,
            bitrate: self.bitrate,
            minimum_fec_packets: self.minimum_fec_packets,
            qos: self.qos,
            video_format: self.video_format,
            dynamic_range: self.dynamic_range,
            chroma_sampling_type: self.chroma_sampling_type,
            max_reference_frames: self.max_reference_frames,
            encrypt_video: self.encrypt_video,
        }
    }
}

impl Default for VideoStreamContext {
    fn default() -> (context: Self)
        ensures
            context == (VideoStreamContext {
                width: 0,
                height: 0,
                fps: 0,
                packet_size: 0,
                bitrate: 0,
                minimum_fec_packets: 0,
                qos: false,
                video_format: VideoFormat::H264,
                dynamic_range: VideoDynamicRange::Sdr,
                chroma_sampling_type: VideoChromaSampling::Yuv420,
                max_reference_frames: 0,
                encrypt_video: false,
            }),
    {
        Self {
            width: 0,
            height: 0,
            fps: 0,
            packet_size: 0,
            bitrate: 0,
            minimum_fec_packets: 0,
            qos: false,
            video_format: VideoFormat::default(),
            dynamic_range: VideoDynamicRange::default(),
            chroma_sampling_type: VideoChromaSampling::default(),
            max_reference_frames: 0,
            encrypt_video: false,
        }
    }
}

} // verus!
