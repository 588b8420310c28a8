use cambridge::capability::{
    exact_modes, xrgb_bandwidth_bps, CaptureMode, FrameRate, PixelFormat, TransportCodec,
};
use cambridge::pipeline::{plan_pipeline, sender_work, PipelinePlan, SenderWork};
use cambridge::protocol::{FrameHeader, ProtocolError, FLAG_CONFIG, FLAG_KEYFRAME, VERSION};
use cambridge::reassembly::{Reassembler, UDP_PAYLOAD};
use cambridge::runtime::{encode_jpeg, rgb_from_xrgb, RgbFrame};
use cambridge::transport::{fragments, parse_fragment, HandshakeError, ReceiverHello};

fn decode_jpeg(data: &[u8]) -> Result<RgbFrame, String> {
    let image = image::load_from_memory_with_format(data, image::ImageFormat::Jpeg)
        .map_err(|e| e.to_string())?
        .into_rgb8();
    Ok(RgbFrame {
        width: image.width(),
        height: image.height(),
        pixels: image.into_raw(),
    })
}

#[test]
fn exact_modes_never_synthesizes_4k60() {
    let modes = exact_modes(vec![
        CaptureMode {
            width: 3840,
            height: 2160,
            fps: FrameRate::new(30, 1),
            format: PixelFormat::Nv12,
            native_type_index: 0,
            verified_openable: true,
        },
        CaptureMode {
            width: 1920,
            height: 1080,
            fps: FrameRate::new(60, 1),
            format: PixelFormat::Nv12,
            native_type_index: 1,
            verified_openable: true,
        },
    ]);
    assert!(!modes
        .iter()
        .any(|m| m.width == 3840 && m.fps == FrameRate::new(60, 1)));
}

#[test]
fn output_is_capped_by_selected_input() {
    let input = CaptureMode {
        width: 1920,
        height: 1080,
        fps: FrameRate::new(30, 1),
        format: PixelFormat::Mjpeg,
        native_type_index: 0,
        verified_openable: true,
    };
    assert!(input.allows_output(1280, 720, FrameRate::new(30, 1)));
    assert!(!input.allows_output(1920, 1080, FrameRate::new(60, 1)));
    assert!(!input.allows_output(3840, 2160, FrameRate::new(30, 1)));
}

#[test]
fn xrgb_4k60_warns_at_about_sixteen_gbps() {
    let bps = xrgb_bandwidth_bps(3840, 2160, FrameRate::new(60, 1));
    assert!(bps > 15_000_000_000 && bps < 17_000_000_000);
}

fn mode(format: PixelFormat) -> CaptureMode {
    CaptureMode {
        width: 1920,
        height: 1080,
        fps: FrameRate::new(60, 1),
        format,
        native_type_index: 0,
        verified_openable: true,
    }
}

#[test]
fn matching_compressed_input_is_passed_through_without_encoder() {
    assert_eq!(
        plan_pipeline(&mode(PixelFormat::H264), TransportCodec::H264, &[]),
        Ok(PipelinePlan::Passthrough)
    );
}

#[test]
fn no_receiver_skips_network_encoding() {
    assert_eq!(
        sender_work(false),
        SenderWork::CapturePreviewAndLocalCameraOnly
    );
}

#[test]
fn round_trip_keeps_codec_timing_and_keyframe() {
    let h = FrameHeader {
        codec: TransportCodec::Hevc,
        flags: FLAG_KEYFRAME | FLAG_CONFIG,
        width: 3840,
        height: 2160,
        fps_numerator: 60000,
        fps_denominator: 1001,
        frame_id: 42,
        timestamp_100ns: 7_654_321,
        payload_len: 9_000_000,
    };
    assert_eq!(FrameHeader::decode(&h.encode().unwrap()).unwrap(), h);
}

#[test]
fn mismatched_version_is_explicit() {
    let mut bytes = FrameHeader {
        codec: TransportCodec::Jpeg,
        flags: 0,
        width: 1,
        height: 1,
        fps_numerator: 1,
        fps_denominator: 1,
        frame_id: 0,
        timestamp_100ns: 0,
        payload_len: 0,
    }
    .encode()
    .unwrap();
    bytes[4..6].copy_from_slice(&99u16.to_le_bytes());
    assert_eq!(
        FrameHeader::decode(&bytes),
        Err(ProtocolError::VersionMismatch(99))
    );
}

#[test]
fn accepts_out_of_order_large_frame() {
    let now: u64 = 0;
    let mut r = Reassembler::default();
    assert_eq!(r.push(7, 1, 2, 6, b"def", now).unwrap(), None);
    assert_eq!(
        r.push(7, 0, 2, 6, b"abc", now).unwrap(),
        Some(b"abcdef".to_vec())
    );
}

#[test]
fn jpeg_actual_round_trip() {
    let image = RgbFrame {
        width: 64,
        height: 48,
        pixels: [190u8, 40, 15].repeat(64 * 48),
    };
    let jpeg = encode_jpeg(&image, 90).unwrap();
    let decoded = decode_jpeg(&jpeg).unwrap();
    assert_eq!((decoded.width, decoded.height), (64, 48));
    assert!(decoded.pixels[(20 * 64 + 20) * 3] > 180);
}

#[test]
fn xrgb_rejects_truncated_frame() {
    assert!(rgb_from_xrgb(&[0; 3], 1, 1).is_err());
}

#[test]
fn handshake_rejects_version_mismatch() {
    let mut hello = ReceiverHello {
        version: VERSION,
        codecs: vec![TransportCodec::H264],
    }
    .encode();
    hello[4..6].copy_from_slice(&99u16.to_le_bytes());
    assert_eq!(
        ReceiverHello::decode(&hello),
        Err(HandshakeError::VersionMismatch {
            peer: 99,
            local: VERSION
        })
    );
}

#[test]
fn fragments_stay_under_mtu_and_keep_header() {
    let payload = vec![7u8; 9000];
    let header = FrameHeader {
        codec: TransportCodec::H264,
        flags: FLAG_KEYFRAME,
        width: 3840,
        height: 2160,
        fps_numerator: 60,
        fps_denominator: 1,
        frame_id: 55,
        timestamp_100ns: 9,
        payload_len: payload.len() as u32,
    };
    let packets = fragments(&header, &payload).unwrap();
    assert!(packets.iter().all(|p| p.len() <= UDP_PAYLOAD));
    let (first, decoded) = parse_fragment(&packets[0]).unwrap();
    assert_eq!(first.frame_id, 55);
    assert_eq!(decoded, Some(header));
}
