use moonshine_core::video::config::{
    FrameStats, VideoChromaSampling, VideoDynamicRange, VideoFormat, VideoStreamConfig,
    VideoStreamContext,
};
use std::time::Duration;

#[test]
fn formats_from_numbers() {
    assert_eq!(VideoFormat::try_from(0), Ok(VideoFormat::H264));
    assert_eq!(VideoFormat::try_from(1), Ok(VideoFormat::Hevc));
    assert_eq!(VideoFormat::try_from(2), Ok(VideoFormat::Av1));
    assert_eq!(VideoFormat::try_from(3), Err(()));
    assert_eq!(VideoFormat::try_from(u32::MAX), Err(()));
    assert_eq!(VideoFormat::default(), VideoFormat::H264);
}

#[test]
fn dynamic_ranges_from_numbers() {
    assert_eq!(VideoDynamicRange::try_from(0), Ok(VideoDynamicRange::Sdr));
    assert_eq!(VideoDynamicRange::try_from(1), Ok(VideoDynamicRange::Hdr));
    assert_eq!(VideoDynamicRange::try_from(2), Err(()));
    assert_eq!(VideoDynamicRange::default(), VideoDynamicRange::Sdr);
}

#[test]
fn chroma_samplings_from_numbers() {
    assert_eq!(VideoChromaSampling::try_from(0), Ok(VideoChromaSampling::Yuv420));
    assert_eq!(VideoChromaSampling::try_from(1), Ok(VideoChromaSampling::Yuv444));
    assert_eq!(VideoChromaSampling::try_from(2), Err(()));
    assert_eq!(VideoChromaSampling::default(), VideoChromaSampling::Yuv420);
}

#[test]
fn default_configuration() {
    let config = VideoStreamConfig::default();
    assert_eq!(config.port, 47998);
    assert_eq!(config.fec_percentage, 20);
    assert!(!config.encrypt);
    assert!(!config.log_frame_spikes);
    assert_eq!(f32::from_bits(config.pacing_rate_factor.bits), 8.0);
}

#[test]
fn default_context() {
    let context = VideoStreamContext::default().clone();
    assert_eq!((context.width, context.height, context.fps), (0, 0, 0));
    assert_eq!((context.packet_size, context.bitrate), (0, 0));
    assert_eq!((context.minimum_fec_packets, context.max_reference_frames), (0, 0));
    assert!(!context.qos && !context.encrypt_video);
    assert_eq!(context.video_format, VideoFormat::H264);
    assert_eq!(context.dynamic_range, VideoDynamicRange::Sdr);
    assert_eq!(context.chroma_sampling_type, VideoChromaSampling::Yuv420);
}

#[test]
fn clones_keep_every_field() {
    let stats = FrameStats {
        channel_wait: Duration::from_nanos(1),
        import: Duration::from_nanos(2),
        convert: Duration::from_nanos(3),
        encode: Duration::from_nanos(4),
        packetize: Duration::from_nanos(5),
        send: Duration::from_nanos(6),
        total: Duration::from_nanos(7),
        encoded_bytes: 8,
        is_key_frame: true,
    };
    assert_eq!(format!("{:?}", stats.clone()), format!("{:?}", stats));
    let config = VideoStreamConfig { port: 1, encrypt: true, ..VideoStreamConfig::default() };
    assert_eq!(format!("{:?}", config.clone()), format!("{:?}", config));
}
