use cambridge::camera_pipe::pipe_frame;
use cambridge::capability::{
    available_encoders, classify_device, exact_modes, Acceleration, CaptureMode, CodecCapability,
    DeviceKind, FrameRate, PixelFormat, TransportCodec,
};
use cambridge::mft::{nv12_to_rgb, rgb_to_nv12};
use cambridge::net::{is_loopback, lan_peer, private_lan, Endpoint, IpAddress};
use cambridge::pipeline::{plan_pipeline, sender_work, PipelinePlan, PlanError, SenderWork};
use cambridge::protocol::{FrameHeader, ProtocolError, FLAG_KEYFRAME, HEADER_LEN, MAX_FRAME_BYTES};
use cambridge::reassembly::{Reassembler, ReassemblyError, FRAME_TIMEOUT};
use cambridge::receiver::{
    is_keyframe_request, is_ping, ping_reply, receiver_hello, receiver_idle, DecoderKey,
    FrameGate, GateAction, HeaderTable, PacketStep, PingReply, ReceiverSession,
};
use cambridge::recovery::{CaptureHealth, RecoveryController, NANOS_PER_SECOND};
use cambridge::runtime::{
    frame_interval_100ns, pack_codec_payload, resize_frame, rgb_from_xrgb,
    sender_output, split_codec_payload, test_device, xrgb_from_rgb, CodecPayloadError, RgbFrame,
};
use cambridge::sender::{
    capture_codec, compressed_source, due, frame_header, keyframe_due, needs_picture, raw_payload,
    receiver_active, receiver_reply, sender_plan, FramePacer, OutputPlan, RawPayload,
    ReceiverReply, SenderRefusal, PING_INTERVAL,
};
use cambridge::settings::{
    bitrate_bps, fps_cap, jpeg_quality, listed_devices, native_passthrough, parse_unsigned,
    scale_divisor, selected_codec, selected_encoder, send_mode, SendRefusal,
};
use cambridge::transport::{
    fragments, negotiate, parse_fragment, FragmentError, HandshakeError, ReceiverHello,
    ReceiverLease, FRAGMENT_HEADER_LEN, LEASE_TTL,
};
use cambridge::windows_mf::{
    conservative_kind, native_mode, native_stream, native_type_matches, pack_rows, unpack_pair,
};

fn header(codec: TransportCodec, frame_id: u64, keyframe: bool, payload_len: u32) -> FrameHeader {
    FrameHeader {
        codec,
        flags: if keyframe { FLAG_KEYFRAME } else { 0 },
        width: 64,
        height: 48,
        fps_numerator: 30,
        fps_denominator: 1,
        frame_id,
        timestamp_100ns: 0,
        payload_len,
    }
}

fn mode(width: u32, height: u32, fps: FrameRate, format: PixelFormat) -> CaptureMode {
    CaptureMode {
        width,
        height,
        fps,
        format,
        native_type_index: 0,
        verified_openable: true,
    }
}

fn decode_jpeg_bytes(data: &[u8]) -> Result<RgbFrame, String> {
    let image = image::load_from_memory_with_format(data, image::ImageFormat::Jpeg)
        .map_err(|e| e.to_string())?
        .into_rgb8();
    Ok(RgbFrame {
        width: image.width(),
        height: image.height(),
        pixels: image.into_raw(),
    })
}

#[test]
fn label_shows_fraction_with_three_decimals() {
    let m = CaptureMode {
        width: 1920,
        height: 1080,
        fps: FrameRate::new(60000, 1001),
        format: PixelFormat::Nv12,
        native_type_index: 3,
        verified_openable: true,
    };
    assert_eq!(m.label(), "1920×1080 59.940 fps NV12 ✓");
    let unchecked = CaptureMode {
        verified_openable: false,
        format: PixelFormat::Hevc,
        fps: FrameRate::new(30, 1),
        ..m
    };
    assert_eq!(unchecked.label(), "1920×1080 30.000 fps H.265/HEVC (미검증)");
}

#[test]
fn exact_modes_sorts_and_keeps_lowest_index() {
    let mut a = mode(1280, 720, FrameRate::new(30, 1), PixelFormat::Nv12);
    a.native_type_index = 5;
    let mut b = a;
    b.native_type_index = 2;
    let c = mode(640, 480, FrameRate::new(30, 1), PixelFormat::Mjpeg);
    let modes = exact_modes(vec![a, c, b]);
    assert_eq!(modes.len(), 2);
    assert_eq!(modes[0], c);
    assert_eq!(modes[1].native_type_index, 2);
}

#[test]
fn frame_rates_compare_as_fractions() {
    assert!(FrameRate::new(30000, 1001).at_most(FrameRate::new(30, 1)));
    assert!(!FrameRate::new(30, 1).at_most(FrameRate::new(30000, 1001)));
    assert!(FrameRate::new(60, 2).at_most(FrameRate::new(30, 1)));
}

#[test]
fn device_names_suggest_kind() {
    assert_eq!(classify_device("Elgato HD60 X", "usb#1"), DeviceKind::CaptureDevice);
    assert_eq!(classify_device("Logitech BRIO", "usb#2"), DeviceKind::Webcam);
    assert_eq!(classify_device("Generic", "usb#3"), DeviceKind::VideoCaptureDevice);
    assert_eq!(conservative_kind("USB HDMI Capture", "x"), DeviceKind::CaptureDevice);
}

#[test]
fn codec_ids_read_back() {
    for codec in [
        TransportCodec::Jpeg,
        TransportCodec::H264,
        TransportCodec::Hevc,
        TransportCodec::Av1,
        TransportCodec::Xrgb8888,
    ] {
        assert_eq!(TransportCodec::from_id(codec.id()), Some(codec));
    }
    assert_eq!(TransportCodec::from_id(0), None);
    assert_eq!(TransportCodec::from_id(6), None);
    assert_eq!(TransportCodec::from_input(PixelFormat::Nv12), None);
    assert_eq!(TransportCodec::from_input(PixelFormat::Mjpeg), Some(TransportCodec::Jpeg));
}

fn capability(codec: TransportCodec, can_encode: bool, can_decode: bool, name: &str) -> CodecCapability {
    CodecCapability {
        codec,
        acceleration: Acceleration::Cpu,
        encoder_name: name.to_string(),
        can_encode,
        can_decode,
        max_width: 3840,
        max_height: 2160,
        max_fps: 60,
    }
}

#[test]
fn encoders_are_listed_in_order() {
    let caps = vec![
        capability(TransportCodec::H264, true, false, "a"),
        capability(TransportCodec::Hevc, true, false, "b"),
        capability(TransportCodec::H264, false, true, "c"),
        capability(TransportCodec::H264, true, true, "d"),
    ];
    let found = available_encoders(&caps, TransportCodec::H264);
    assert_eq!(found.len(), 2);
    assert_eq!(found[0].encoder_name, "a");
    assert_eq!(found[1].encoder_name, "d");
}

#[test]
fn bandwidth_formula_is_exact() {
    assert_eq!(xrgb(3840, 2160, 60, 1), 15_925_248_000);
    assert_eq!(xrgb(1, 1, 30000, 1001), 952);
    assert_eq!(xrgb(1, 1, 1, 0), 32);
}

fn xrgb(w: u32, h: u32, n: u32, d: u32) -> u64 {
    cambridge::capability::xrgb_bandwidth_bps(w, h, FrameRate::new(n, d))
}

#[test]
fn pipeline_plans_each_case() {
    let caps = vec![
        capability(TransportCodec::H264, true, false, "enc"),
        capability(TransportCodec::Jpeg, false, true, "mjpeg"),
    ];
    let xrgb_mode = mode(640, 480, FrameRate::new(30, 1), PixelFormat::Xrgb8888);
    assert_eq!(
        plan_pipeline(&xrgb_mode, TransportCodec::Xrgb8888, &caps),
        Ok(PipelinePlan::RawPassthrough)
    );
    let nv12 = mode(640, 480, FrameRate::new(30, 1), PixelFormat::Nv12);
    assert_eq!(
        plan_pipeline(&nv12, TransportCodec::Xrgb8888, &caps),
        Err(PlanError::RawFormatMismatch)
    );
    assert_eq!(
        plan_pipeline(&nv12, TransportCodec::Hevc, &caps),
        Err(PlanError::EncoderUnavailable(TransportCodec::Hevc))
    );
    assert_eq!(
        plan_pipeline(&nv12, TransportCodec::H264, &caps),
        Ok(PipelinePlan::ConvertAndEncode)
    );
    let mjpeg = mode(640, 480, FrameRate::new(30, 1), PixelFormat::Mjpeg);
    assert_eq!(
        plan_pipeline(&mjpeg, TransportCodec::H264, &caps),
        Ok(PipelinePlan::DecodeAndEncode)
    );
    let hevc = mode(640, 480, FrameRate::new(30, 1), PixelFormat::Hevc);
    assert_eq!(
        plan_pipeline(&hevc, TransportCodec::H264, &caps),
        Err(PlanError::DecoderUnavailable(PixelFormat::Hevc))
    );
    assert_eq!(sender_work(true), SenderWork::CaptureAndTransmit);
}

#[test]
fn header_errors_are_reported() {
    let good = header(TransportCodec::Jpeg, 1, true, 10);
    let bytes = good.encode().unwrap();
    assert_eq!(bytes.len(), HEADER_LEN);
    assert_eq!(FrameHeader::decode(&bytes[..47]), Err(ProtocolError::TooShort));
    let mut bad_magic = bytes;
    bad_magic[0] = b'X';
    assert_eq!(FrameHeader::decode(&bad_magic), Err(ProtocolError::BadMagic));
    let mut bad_codec = bytes;
    bad_codec[6] = 9;
    assert_eq!(FrameHeader::decode(&bad_codec), Err(ProtocolError::UnsupportedCodec(9)));
    let zero_width = FrameHeader { width: 0, ..good };
    assert_eq!(zero_width.encode(), Err(ProtocolError::InvalidDimensions));
    let too_large = FrameHeader {
        payload_len: MAX_FRAME_BYTES as u32 + 1,
        ..good
    };
    assert_eq!(too_large.encode(), Err(ProtocolError::FrameTooLarge));
    let mut big = bytes;
    big[44..48].copy_from_slice(&(MAX_FRAME_BYTES as u32 + 1).to_le_bytes());
    assert_eq!(FrameHeader::decode(&big), Err(ProtocolError::FrameTooLarge));
    assert!(good.keyframe());
    assert!(!good.codec_config());
}

#[test]
fn hello_round_trip_and_errors() {
    let hello = ReceiverHello {
        version: cambridge::protocol::VERSION,
        codecs: vec![TransportCodec::Jpeg, TransportCodec::Av1],
    };
    let bytes = hello.encode();
    assert_eq!(bytes, vec![0x43, 0x42, 0x48, 0x32, 2, 0, 2, 1, 4]);
    assert_eq!(ReceiverHello::decode(&bytes), Ok(hello.clone()));
    assert_eq!(ReceiverHello::decode(&bytes[..6]), Err(HandshakeError::Malformed));
    let mut unknown = bytes.clone();
    unknown[8] = 77;
    assert_eq!(ReceiverHello::decode(&unknown), Err(HandshakeError::UnsupportedCodec(77)));
    assert_eq!(
        negotiate(&[TransportCodec::H264, TransportCodec::Av1], &hello),
        Ok(TransportCodec::Av1)
    );
    assert_eq!(
        negotiate(&[TransportCodec::Hevc], &hello),
        Err(HandshakeError::NoCommonCodec)
    );
}

#[test]
fn fragments_reassemble_in_reverse_order() {
    let payload: Vec<u8> = (0..5000u32).map(|i| (i % 251) as u8).collect();
    let h = header(TransportCodec::Jpeg, 9, true, payload.len() as u32);
    let packets = fragments(&h, &payload).unwrap();
    assert_eq!(packets.len(), 5);
    assert_eq!(packets[1].len(), 1200);
    let mut r = Reassembler::new();
    let mut result = None;
    for (k, packet) in packets.iter().enumerate().rev() {
        let (fragment, decoded) = parse_fragment(packet).unwrap();
        assert_eq!(decoded.is_some(), k == 0);
        assert_eq!(fragment.index as usize, k);
        result = r
            .push(
                fragment.frame_id,
                fragment.index,
                fragment.count,
                fragment.expected_frame_bytes as usize,
                fragment.data,
                0,
            )
            .unwrap();
    }
    assert_eq!(result, Some(payload));
}

#[test]
fn fragment_errors_are_reported() {
    let h = header(TransportCodec::Jpeg, 1, true, 4);
    assert_eq!(fragments(&h, &[1, 2, 3]), Err(FragmentError::PayloadLengthMismatch));
    let bad = FrameHeader { height: 0, ..h };
    assert_eq!(
        fragments(&bad, &[1, 2, 3, 4]),
        Err(FragmentError::Header(ProtocolError::InvalidDimensions))
    );
    let packets = fragments(&h, &[1, 2, 3, 4]).unwrap();
    assert_eq!(packets[0].len(), FRAGMENT_HEADER_LEN + HEADER_LEN + 4);
    assert!(matches!(parse_fragment(&packets[0][..20]), Err(FragmentError::BadFragment)));
    let mut other_version = packets[0].clone();
    other_version[4] = 7;
    assert!(matches!(
        parse_fragment(&other_version),
        Err(FragmentError::VersionMismatch(7))
    ));
    assert!(matches!(
        parse_fragment(&packets[0][..40]),
        Err(FragmentError::TruncatedHeader)
    ));
    let mut broken_header = packets[0].clone();
    broken_header[FRAGMENT_HEADER_LEN] = b'Z';
    assert!(matches!(
        parse_fragment(&broken_header),
        Err(FragmentError::Header(ProtocolError::BadMagic))
    ));
}

#[test]
fn reassembly_errors_are_reported() {
    let mut r = Reassembler::default();
    assert_eq!(
        r.push(1, 0, 1, MAX_FRAME_BYTES + 1, b"x", 0),
        Err(ReassemblyError::FrameTooLarge)
    );
    assert_eq!(r.push(1, 2, 2, 6, b"abc", 0), Err(ReassemblyError::TooManyChunks));
    assert_eq!(r.push(1, 0, 0, 6, b"abc", 0), Err(ReassemblyError::TooManyChunks));
    assert_eq!(r.push(2, 0, 2, 6, b"abc", 0), Ok(None));
    assert_eq!(r.push(2, 1, 3, 6, b"def", 0), Err(ReassemblyError::InvalidChunk));
    assert_eq!(r.push(3, 0, 2, 4, b"abcde", 0), Err(ReassemblyError::FrameTooLarge));
    assert_eq!(r.push(4, 0, 2, 6, b"ab", 0), Ok(None));
    assert_eq!(r.push(4, 1, 2, 6, b"cd", 0), Err(ReassemblyError::SizeMismatch));
}

#[test]
fn reassembly_drops_expired_frames() {
    let mut r = Reassembler::new();
    assert_eq!(r.push(5, 0, 2, 6, b"abc", 0), Ok(None));
    r.expire(FRAME_TIMEOUT + 1);
    assert_eq!(r.push(5, 1, 2, 6, b"def", FRAME_TIMEOUT + 1), Ok(None));
    assert_eq!(r.push(6, 0, 2, 6, b"abc", 10), Ok(None));
    assert_eq!(
        r.push(6, 1, 2, 6, b"def", 10 + FRAME_TIMEOUT),
        Ok(Some(b"abcdef".to_vec()))
    );
}

#[test]
fn recovery_backs_off_and_resets() {
    let mut c = RecoveryController::default();
    assert_eq!(c.state, CaptureHealth::Running);
    c.signal_lost("no signal".to_string());
    assert_eq!(c.state, CaptureHealth::NoSignal("no signal".to_string()));
    c.disconnected("gone".to_string());
    assert_eq!(c.state, CaptureHealth::DeviceDisconnected("gone".to_string()));
    let delays: Vec<u64> = (0..6).map(|_| c.schedule_retry(100) - 100).collect();
    let s = NANOS_PER_SECOND;
    assert_eq!(delays, vec![2 * s, 4 * s, 8 * s, 16 * s, 16 * s, 16 * s]);
    assert_eq!(
        c.state,
        CaptureHealth::Reconnecting {
            attempt: 6,
            at: 100 + 16 * s
        }
    );
    c.recovered();
    assert_eq!(c.state, CaptureHealth::Running);
    assert_eq!(c.schedule_retry(0), 2 * s);
}

#[test]
fn xrgb_conversion_round_trips() {
    let frame = RgbFrame {
        width: 2,
        height: 1,
        pixels: vec![1, 2, 3, 4, 5, 6],
    };
    let xrgb = xrgb_from_rgb(&frame);
    assert_eq!(xrgb, vec![3, 2, 1, 0, 6, 5, 4, 0]);
    assert_eq!(rgb_from_xrgb(&xrgb, 2, 1), Ok(frame));
    assert!(rgb_from_xrgb(&xrgb, 0, 1).is_err());
    assert!(rgb_from_xrgb(&[0; 4], 8193, 1).is_err());
}

#[test]
fn nv12_conversion_of_white_and_black() {
    let white = RgbFrame {
        width: 2,
        height: 2,
        pixels: vec![255; 12],
    };
    let nv12 = rgb_to_nv12(&white);
    assert_eq!(nv12, vec![235, 235, 235, 235, 128, 128]);
    assert_eq!(nv12_to_rgb(&nv12, 2, 2), Ok(white));
    let black = RgbFrame {
        width: 2,
        height: 2,
        pixels: vec![0; 12],
    };
    let nv12 = rgb_to_nv12(&black);
    assert_eq!(nv12, vec![16, 16, 16, 16, 128, 128]);
    assert_eq!(nv12_to_rgb(&nv12, 2, 2), Ok(black));
    assert!(nv12_to_rgb(&nv12, 3, 2).is_err());
    assert!(nv12_to_rgb(&nv12[..5], 2, 2).is_err());
}

#[test]
fn rows_are_packed_and_flipped() {
    let data: Vec<u8> = (0..24u8).collect();
    assert_eq!(pack_rows(&data, 12, 2, 2).unwrap(), [&data[0..8], &data[12..20]].concat());
    assert_eq!(pack_rows(&data, -12, 2, 2).unwrap(), [&data[12..20], &data[0..8]].concat());
    assert!(pack_rows(&data, 4, 2, 2).is_err());
    assert!(pack_rows(&data[..20], 12, 2, 2).is_err());
    assert_eq!(unpack_pair((1920u64 << 32) | 1080), (1920, 1080));
}

#[test]
fn sender_output_divides_and_caps() {
    let m = mode(1920, 1080, FrameRate::new(60000, 1001), PixelFormat::Nv12);
    assert_eq!(sender_output(&m, 2, 0), (960, 540, FrameRate::new(60000, 1001)));
    assert_eq!(sender_output(&m, 9, 30), (480, 270, FrameRate::new(30, 1)));
    assert_eq!(sender_output(&m, 0, 90), (1920, 1080, FrameRate::new(60000, 1001)));
    let tiny = mode(5, 3, FrameRate::new(30, 1), PixelFormat::Nv12);
    assert_eq!(sender_output(&tiny, 4, 0), (2, 2, FrameRate::new(30, 1)));
    assert_eq!(frame_interval_100ns(FrameRate::new(30, 1)), 333_333);
    assert_eq!(frame_interval_100ns(FrameRate::new(60000, 1001)), 166_833);
    assert_eq!(frame_interval_100ns(FrameRate::new(0, 1)), 10_000_000);
}

#[test]
fn codec_payload_round_trips() {
    let packed = pack_codec_payload(b"cfg", b"bits");
    assert_eq!(packed, vec![3, 0, 0, 0, b'c', b'f', b'g', b'b', b'i', b't', b's']);
    assert_eq!(split_codec_payload(&packed), Ok((&b"cfg"[..], &b"bits"[..])));
    assert_eq!(split_codec_payload(&[1, 0]), Err(CodecPayloadError::TooShort));
    assert_eq!(
        split_codec_payload(&[9, 0, 0, 0, 1]),
        Err(CodecPayloadError::BadConfigLength)
    );
    assert_eq!(
        split_codec_payload(&[0, 0, 1, 0]),
        Err(CodecPayloadError::BadConfigLength)
    );
}

#[test]
fn test_device_is_offered_last() {
    let device = test_device();
    assert_eq!(device.symbolic_link, "cambridge:test-pattern");
    assert_eq!(device.modes.len(), 1);
    let mut own = test_device();
    own.name = "CamBridge Virtual".to_string();
    let mut other = test_device();
    other.name = "Cam Link 4K".to_string();
    let listed = listed_devices(vec![own, other]);
    assert_eq!(listed.len(), 2);
    assert_eq!(listed[0].name, "Cam Link 4K");
    assert_eq!(listed[1].symbolic_link, "cambridge:test-pattern");
}

#[test]
fn jpeg_encoder_output_decodes_to_same_size() {
    let frame = RgbFrame {
        width: 16,
        height: 8,
        pixels: [10u8, 200, 30].repeat(16 * 8),
    };
    let jpeg = cambridge::runtime::encode_jpeg(&frame, 85).unwrap();
    assert_eq!(&jpeg[..2], &[0xff, 0xd8]);
    let decoded = decode_jpeg_bytes(&jpeg).unwrap();
    assert_eq!((decoded.width, decoded.height), (16, 8));
    assert!(decode_jpeg_bytes(b"not a jpeg").is_err());
}

#[test]
fn resize_changes_size_and_keeps_same_size() {
    let frame = RgbFrame {
        width: 4,
        height: 4,
        pixels: [100u8, 50, 25].repeat(16),
    };
    let half = resize_frame(&frame, 2, 2);
    assert_eq!((half.width, half.height, half.pixels.len()), (2, 2, 12));
    let same = resize_frame(&frame, 4, 4);
    assert_eq!(same, frame);
}

#[test]
fn pipe_frames_are_bottom_up_bgrx() {
    let frame = RgbFrame {
        width: 1,
        height: 2,
        pixels: vec![1, 2, 3, 4, 5, 6],
    };
    assert_eq!(
        pipe_frame(&frame, true),
        vec![1, 0, 0, 0, 2, 0, 0, 0, 8, 0, 0, 0, 6, 5, 4, 0, 3, 2, 1, 0]
    );
    assert_eq!(
        pipe_frame(&frame, false),
        vec![8, 0, 0, 0, 6, 5, 4, 0, 3, 2, 1, 0]
    );
}

fn v4(a: u8, b: u8, c: u8, d: u8, port: u16) -> Endpoint {
    Endpoint {
        ip: IpAddress::V4(a, b, c, d),
        port,
    }
}

#[test]
fn only_lan_addresses_are_accepted() {
    assert!(private_lan(IpAddress::V4(10, 1, 2, 3)));
    assert!(private_lan(IpAddress::V4(172, 16, 0, 1)));
    assert!(private_lan(IpAddress::V4(172, 31, 255, 1)));
    assert!(!private_lan(IpAddress::V4(172, 32, 0, 1)));
    assert!(private_lan(IpAddress::V4(192, 168, 1, 1)));
    assert!(!private_lan(IpAddress::V4(8, 8, 8, 8)));
    assert!(!private_lan(IpAddress::V6(1)));
    assert!(is_loopback(IpAddress::V4(127, 0, 0, 1)));
    assert!(is_loopback(IpAddress::V6(1)));
    assert!(lan_peer(IpAddress::V4(127, 9, 9, 9)));
    assert!(!lan_peer(IpAddress::V6(2)));
}

#[test]
fn lease_lasts_six_seconds() {
    let mut lease = ReceiverLease::default();
    assert_eq!(lease.active(0), None);
    assert!(!lease.update(v4(8, 8, 8, 8, 1), 0));
    assert_eq!(lease.active(0), None);
    let peer = v4(192, 168, 0, 7, 45831);
    assert!(lease.update(peer, 1000));
    assert_eq!(lease.active(1000 + LEASE_TTL - 1), Some(peer));
    assert_eq!(lease.active(1000 + LEASE_TTL), None);
    assert!(!lease.update(v4(1, 1, 1, 1, 1), 2000));
    assert_eq!(lease.active(2000), Some(peer));
}

#[test]
fn receiver_serves_one_sender() {
    let a = v4(192, 168, 0, 2, 5000);
    let b = v4(192, 168, 0, 3, 5000);
    assert_eq!(ping_reply(None, a, false), PingReply::AnswerNewPeer);
    assert_eq!(ping_reply(Some(a), a, false), PingReply::Answer);
    assert_eq!(ping_reply(Some(a), b, false), PingReply::Ignore);
    assert_eq!(ping_reply(Some(a), b, true), PingReply::AnswerNewPeer);
    assert!(is_ping(b"CBP2"));
    assert!(!is_ping(b"CBP2x"));
    assert!(is_keyframe_request(b"CBK2"));
    assert!(receiver_idle(0, 3_000_000_001));
    assert!(!receiver_idle(0, 3_000_000_000));
    assert!(!receiver_idle(10, 5));
    let hello = receiver_hello(&[TransportCodec::Hevc]);
    assert_eq!(
        hello.codecs,
        vec![TransportCodec::Jpeg, TransportCodec::Xrgb8888, TransportCodec::Hevc]
    );
}

#[test]
fn headers_are_found_again_until_they_expire() {
    let mut table = HeaderTable::new();
    let h1 = header(TransportCodec::Jpeg, 1, true, 3);
    let h2 = header(TransportCodec::Jpeg, 2, true, 3);
    table.insert(1, h1, 0);
    table.insert(2, h2, 100);
    table.insert(1, h1, 200);
    assert_eq!(table.len(), 2);
    table.keep_fresh(FRAME_TIMEOUT + 150);
    assert_eq!(table.len(), 1);
    assert_eq!(table.take(2), None);
    assert_eq!(table.take(1), Some(h1));
    assert_eq!(table.take(1), None);
    for id in 0..7u64 {
        table.insert(id, h1, 0);
    }
    assert_eq!(table.len(), 7);
    table.insert(99, h2, 0);
    assert_eq!(table.len(), 1);
    assert_eq!(table.take(99), Some(h2));
}

#[test]
fn gate_waits_for_keyframes_and_drops_old_frames() {
    let mut gate = FrameGate::new();
    let payload = pack_codec_payload(b"cfg", b"data");
    let key = DecoderKey {
        codec: TransportCodec::H264,
        width: 64,
        height: 48,
    };
    assert_eq!(
        gate.route(&header(TransportCodec::H264, 1, false, 11), &payload),
        GateAction::RequestKeyframe
    );
    assert_eq!(
        gate.route(&header(TransportCodec::H264, 2, true, 11), &payload),
        GateAction::OpenDecoder
    );
    gate.decoder_opened(key);
    assert_eq!(gate.decoder(), Some(key));
    gate.consumed(2);
    assert_eq!(
        gate.route(&header(TransportCodec::H264, 2, true, 11), &payload),
        GateAction::Stale
    );
    assert_eq!(
        gate.route(&header(TransportCodec::H264, 3, false, 11), &payload),
        GateAction::Decode
    );
    assert!(gate.decoded(&header(TransportCodec::H264, 3, false, 11), 64, 48));
    assert_eq!(
        gate.route(&header(TransportCodec::H264, 5, false, 11), &payload),
        GateAction::RequestKeyframe
    );
    assert_eq!(gate.decoder(), None);
    assert_eq!(
        gate.route(&header(TransportCodec::H264, 6, false, 11), &[1, 0]),
        GateAction::Truncated
    );
    assert_eq!(
        gate.route(&header(TransportCodec::H264, 6, false, 11), &[200, 0, 0, 0]),
        GateAction::BadConfig
    );
    assert_eq!(
        gate.route(&header(TransportCodec::Jpeg, 7, false, 4), b"jpeg"),
        GateAction::DecodeJpeg
    );
    assert_eq!(
        gate.route(&header(TransportCodec::Xrgb8888, 7, false, 4), b"xrgb"),
        GateAction::DecodeXrgb
    );
    assert!(!gate.decoded(&header(TransportCodec::Jpeg, 7, false, 4), 10, 10));
    gate.decoder_failed();
    gate.reset();
    assert_eq!(gate.decoder(), None);
    assert_eq!(
        gate.route(&header(TransportCodec::Jpeg, 1, false, 4), b"jpeg"),
        GateAction::DecodeJpeg
    );
}

#[test]
fn sender_plans_and_refusals() {
    let m = mode(1920, 1080, FrameRate::new(60, 1), PixelFormat::H264);
    assert_eq!(
        sender_plan(&m, TransportCodec::H264, false, 1, 0),
        Ok(OutputPlan {
            width: 1920,
            height: 1080,
            fps: FrameRate::new(60, 1),
            full_size: true
        })
    );
    assert_eq!(
        sender_plan(&m, TransportCodec::H264, false, 2, 0),
        Err(SenderRefusal::PassthroughNeedsSourceFormat)
    );
    let plan = sender_plan(&m, TransportCodec::H264, true, 2, 30).unwrap();
    assert_eq!((plan.width, plan.height, plan.full_size), (960, 540, false));
    assert_eq!(capture_codec(&m, &plan, TransportCodec::H264, true), TransportCodec::Xrgb8888);
    assert_eq!(capture_codec(&m, &plan, TransportCodec::H264, false), TransportCodec::H264);
    let odd = mode(1, 1, FrameRate::new(30, 1), PixelFormat::Nv12);
    assert_eq!(
        sender_plan(&odd, TransportCodec::Jpeg, false, 1, 0),
        Err(SenderRefusal::OutputExceedsInput)
    );
}

#[test]
fn sender_reads_receiver_replies() {
    let hello = ReceiverHello {
        version: cambridge::protocol::VERSION,
        codecs: vec![TransportCodec::Jpeg],
    }
    .encode();
    assert_eq!(receiver_reply(b"CBK2", TransportCodec::Jpeg), ReceiverReply::KeyframeRequest);
    assert_eq!(receiver_reply(&hello, TransportCodec::Jpeg), ReceiverReply::Ready);
    assert_eq!(receiver_reply(&hello, TransportCodec::Av1), ReceiverReply::CodecUnsupported);
    assert_eq!(
        receiver_reply(b"junk", TransportCodec::Jpeg),
        ReceiverReply::Invalid(HandshakeError::Malformed)
    );
    assert!(receiver_active(Some(0), 2_999_999_999));
    assert!(!receiver_active(Some(0), 3_000_000_000));
    assert!(!receiver_active(None, 0));
    assert!(keyframe_due(0, 1_000_000_000));
    assert!(!keyframe_due(0, 999_999_999));
}

#[test]
fn pacer_sends_one_frame_per_period() {
    let fps = FrameRate::new(30, 1);
    let mut pacer = FramePacer::new();
    assert!(pacer.pass(0, fps));
    assert!(!pacer.pass(333_332, fps));
    assert!(pacer.pass(333_333, fps));
    assert!(!pacer.pass(400_000, fps));
    assert!(pacer.pass(700_000, fps));
}

#[test]
fn sender_payload_choices() {
    assert!(needs_picture(true, false, true, TransportCodec::Jpeg, true));
    assert!(!needs_picture(false, true, true, TransportCodec::Jpeg, true));
    assert!(needs_picture(false, true, true, TransportCodec::Jpeg, false));
    assert!(!needs_picture(false, false, false, TransportCodec::Xrgb8888, true));
    assert_eq!(raw_payload(TransportCodec::Jpeg, true, true), RawPayload::DeviceJpeg);
    assert_eq!(raw_payload(TransportCodec::Jpeg, false, true), RawPayload::EncodeJpeg);
    assert_eq!(raw_payload(TransportCodec::Xrgb8888, true, true), RawPayload::Xrgb);
    assert_eq!(raw_payload(TransportCodec::Av1, false, true), RawPayload::Unsupported);
    assert!(compressed_source(Some(TransportCodec::Hevc)));
    assert!(!compressed_source(Some(TransportCodec::Jpeg)));
    assert!(!compressed_source(None));
    let h = frame_header(
        TransportCodec::Hevc,
        true,
        1280,
        720,
        FrameRate::new(60, 1),
        9,
        77,
        5000,
    );
    assert!(h.keyframe());
    assert_eq!((h.frame_id, h.timestamp_100ns, h.payload_len), (9, 77, 5000));
}

#[test]
fn settings_fields_are_read_like_the_dialog() {
    assert_eq!(parse_unsigned("42", 255), Some(42));
    assert_eq!(parse_unsigned("+7", 255), Some(7));
    assert_eq!(parse_unsigned("", 255), None);
    assert_eq!(parse_unsigned("+", 255), None);
    assert_eq!(parse_unsigned(" 5", 255), None);
    assert_eq!(parse_unsigned("-1", 255), None);
    assert_eq!(parse_unsigned("256", 255), None);
    assert_eq!(parse_unsigned("4294967295", u32::MAX), Some(u32::MAX));
    assert_eq!(parse_unsigned("4294967296", u32::MAX), None);
    assert_eq!(jpeg_quality("90"), 90);
    assert_eq!(jpeg_quality("0"), 1);
    assert_eq!(jpeg_quality("200"), 100);
    assert_eq!(jpeg_quality("300"), 85);
    assert_eq!(jpeg_quality("x"), 85);
    assert_eq!(bitrate_bps("12"), 12_000_000);
    assert_eq!(bitrate_bps("999"), 200_000_000);
    assert_eq!(bitrate_bps(""), 8_000_000);
    assert_eq!((scale_divisor(0), scale_divisor(1), scale_divisor(7)), (1, 2, 4));
    assert_eq!((fps_cap(0), fps_cap(1), fps_cap(2)), (0, 30, 15));
}

#[test]
fn codec_choices_map_to_codecs() {
    let encoders = [TransportCodec::H264, TransportCodec::Av1];
    assert_eq!(selected_codec(0, &encoders, None), TransportCodec::Jpeg);
    assert_eq!(selected_codec(1, &encoders, None), TransportCodec::Xrgb8888);
    assert_eq!(selected_codec(3, &encoders, None), TransportCodec::Av1);
    assert_eq!(selected_codec(4, &encoders, Some(TransportCodec::Hevc)), TransportCodec::Hevc);
    assert_eq!(selected_codec(4, &encoders, None), TransportCodec::Jpeg);
    assert_eq!(selected_encoder(3, 2), Some(1));
    assert_eq!(selected_encoder(4, 2), None);
    assert_eq!(selected_encoder(1, 2), None);
    assert_eq!(native_passthrough(PixelFormat::Hevc, 0, 0), Some(TransportCodec::Hevc));
    assert_eq!(native_passthrough(PixelFormat::Hevc, 1, 0), None);
    assert_eq!(native_passthrough(PixelFormat::Mjpeg, 0, 0), None);
    assert_eq!(native_passthrough(PixelFormat::Nv12, 0, 0), None);
}

#[test]
fn send_needs_an_accepted_mode() {
    let mut device = test_device();
    assert_eq!(send_mode(&[], 0, 0), Err(SendRefusal::NoDevice));
    assert_eq!(
        send_mode(std::slice::from_ref(&device), 0, 1),
        Err(SendRefusal::NoMode)
    );
    assert_eq!(
        send_mode(std::slice::from_ref(&device), 0, 0),
        Ok(device.modes[0])
    );
    device.modes[0].verified_openable = false;
    assert_eq!(
        send_mode(std::slice::from_ref(&device), 0, 0),
        Err(SendRefusal::ModeNotOpenable)
    );
}

#[test]
fn test_pattern_moves_with_phase() {
    let frame = cambridge::runtime::test_pattern(3, 2, 254);
    assert_eq!(frame.len(), 24);
    assert_eq!(&frame[0..4], &[254, 0, 180, 0]);
    assert_eq!(&frame[4..8], &[255, 0, 180, 0]);
    assert_eq!(&frame[8..12], &[0, 0, 180, 0]);
    assert_eq!(&frame[12..16], &[254, 1, 180, 0]);
    let wrapped = cambridge::runtime::test_pattern(1, 1, u32::MAX);
    assert_eq!(wrapped, vec![255, 0, 180, 0]);
}

#[test]
fn native_types_become_modes() {
    let size = (1280u64 << 32) | 720;
    let rate = (60000u64 << 32) | 1001;
    let m = native_mode(size, rate, PixelFormat::Hevc, 4, true).unwrap();
    assert_eq!(
        m,
        CaptureMode {
            width: 1280,
            height: 720,
            fps: FrameRate::new(60000, 1001),
            format: PixelFormat::Hevc,
            native_type_index: 4,
            verified_openable: true,
        }
    );
    assert!(native_type_matches(size, rate, PixelFormat::Hevc, &m));
    assert!(!native_type_matches(size, rate, PixelFormat::H264, &m));
    assert_eq!(native_mode(size, 1, PixelFormat::Nv12, 0, true), None);
    assert_eq!(native_mode(720, rate, PixelFormat::Nv12, 0, true), None);
    assert_eq!(
        native_stream(PixelFormat::Hevc, TransportCodec::Hevc),
        Some(TransportCodec::Hevc)
    );
    assert_eq!(native_stream(PixelFormat::Hevc, TransportCodec::H264), None);
    assert_eq!(
        native_stream(PixelFormat::Mjpeg, TransportCodec::H264),
        Some(TransportCodec::Jpeg)
    );
    assert_eq!(native_stream(PixelFormat::Nv12, TransportCodec::Jpeg), None);
}

#[test]
fn encoders_are_tried_on_grey() {
    let picture = cambridge::mft::probe_picture(4, 2);
    assert_eq!(picture, vec![64, 64, 64, 64, 64, 64, 64, 64, 128, 128, 128, 128]);
}

#[test]
fn intervals_are_strictly_longer() {
    assert!(!due(0, PING_INTERVAL, PING_INTERVAL));
    assert!(due(0, PING_INTERVAL + 1, PING_INTERVAL));
    assert!(!due(10, 0, 0));
}

#[test]
fn label_rate_matches_float_formatting() {
    let mut numerators: Vec<u32> = (0..=130).collect();
    numerators.extend([1001, 2001, 2997, 5995, 14985, 29970, 30000, 59940, 60000, 119881, 120000]);
    numerators.extend([u32::MAX, u32::MAX - 1, 4_000_000_001]);
    for d in (1..=4100u32).chain([10_000, 16_000, 65_536, 1_000_000, u32::MAX]) {
        for &n in &numerators {
            let m = CaptureMode {
                width: 1,
                height: 1,
                fps: FrameRate::new(n, d),
                format: PixelFormat::Nv12,
                native_type_index: 0,
                verified_openable: true,
            };
            let expected = format!("1×1 {:.3} fps NV12 ✓", n as f64 / d as f64);
            assert_eq!(m.label(), expected, "{n}/{d}");
        }
    }
}

#[test]
fn rate_limit_matches_float_comparison() {
    for d in (0..=3000u32).chain([u32::MAX]) {
        for n in [1u32, 14, 15, 16, 29, 30, 31, 449, 450, 451, 29970, 30000, 30030, 60000, u32::MAX] {
            let m = mode(640, 480, FrameRate::new(n, d), PixelFormat::Nv12);
            for limit in [0u32, 15, 30] {
                let rate = n as f64 / d.max(1) as f64;
                let expected = if limit > 0 && (limit as f64) < rate {
                    FrameRate::new(limit, 1)
                } else {
                    m.fps
                };
                assert_eq!(sender_output(&m, 1, limit).2, expected, "{n}/{d} {limit}");
            }
        }
    }
}

#[test]
fn number_fields_read_as_std_parses_them() {
    let texts = [
        "", "+", "-", "0", "00", "+0", "-0", "7", "+7", "++7", "1 ", " 1", "255", "256", "0255",
        "65535", "4294967295", "4294967296", "99999999999", "12a", "٣", "+-1",
    ];
    for text in texts {
        assert_eq!(parse_unsigned(text, 255), text.parse::<u8>().ok().map(u32::from), "{text:?}");
        assert_eq!(parse_unsigned(text, u32::MAX), text.parse::<u32>().ok(), "{text:?}");
    }
}

#[test]
fn sender_session_numbers_frames_and_paces() {
    let mut steps = cambridge::sender::SenderSession::new();
    let hello = ReceiverHello {
        version: cambridge::protocol::VERSION,
        codecs: vec![TransportCodec::Jpeg],
    }
    .encode();
    assert!(steps.ping_due(0));
    assert!(!steps.ping_due(1_000_000_000));
    assert!(steps.ping_due(1_000_000_001));
    assert_eq!(
        steps.on_reply(b"CBK2", TransportCodec::Jpeg, 0),
        cambridge::sender::ReplyAction::Nothing
    );
    let plan = OutputPlan {
        width: 64,
        height: 48,
        fps: FrameRate::new(30, 1),
        full_size: true,
    };
    assert_eq!(
        steps.on_picture(0, 0, &plan, TransportCodec::Jpeg, false, false, true),
        cambridge::sender::PictureRoute::Idle
    );
    assert!(!steps.preview_due(1));
    assert_eq!(
        steps.on_reply(&hello, TransportCodec::Jpeg, 10),
        cambridge::sender::ReplyAction::Ready
    );
    assert!(steps.active(10));
    assert_eq!(
        steps.on_picture(20, 0, &plan, TransportCodec::Jpeg, false, false, false),
        cambridge::sender::PictureRoute::Raw {
            payload: RawPayload::EncodeJpeg,
            resize: false
        }
    );
    assert_eq!(
        steps.on_picture(30, 100, &plan, TransportCodec::Jpeg, false, false, false),
        cambridge::sender::PictureRoute::Skip
    );
    assert_eq!(steps.take_frame_id(), 1);
    assert_eq!(steps.take_frame_id(), 2);
    assert_eq!(
        steps.on_picture(40, 333_333, &plan, TransportCodec::H264, false, true, false),
        cambridge::sender::PictureRoute::Encode {
            open_encoder: true,
            force_keyframe: true,
            resize: false
        }
    );
    assert_eq!(
        steps.on_reply(b"CBK2", TransportCodec::Jpeg, 50),
        cambridge::sender::ReplyAction::ForceKeyframe
    );
    assert_eq!(
        steps.on_picture(60, 666_666, &plan, TransportCodec::H264, false, true, false),
        cambridge::sender::PictureRoute::Encode {
            open_encoder: false,
            force_keyframe: false,
            resize: false
        }
    );
    let step = steps.on_compressed(70, true);
    assert_eq!(step.send_id, Some(3));
    assert!(step.open_local_decoder);
    assert!(!steps.on_compressed(80, true).open_local_decoder);
    assert_eq!(
        steps.on_picture(4_000_000_000, 999_999, &plan, TransportCodec::H264, false, true, false),
        cambridge::sender::PictureRoute::Idle
    );
    assert_eq!(steps.on_compressed(4_000_000_000, false).send_id, None);
    steps.restart();
    assert!(steps.preview_due(4_000_000_000));
    assert_eq!(steps.take_frame_id(), 5);
}

#[test]
fn receiver_session_turns_packets_into_frames() {
    let peer = v4(192, 168, 1, 5, 4000);
    let stranger = v4(192, 168, 1, 6, 4000);
    let mut session = ReceiverSession::new(0);
    assert!(matches!(session.on_packet(v4(8, 8, 8, 8, 1), b"CBP2", 0), PacketStep::Ignored));
    assert!(matches!(session.on_packet(peer, b"CBP2", 0), PacketStep::Hello));
    assert!(matches!(session.on_packet(stranger, b"CBP2", 10), PacketStep::Ignored));
    let h = header(TransportCodec::Jpeg, 1, true, 3);
    let packets = fragments(&h, b"abc").unwrap();
    assert!(matches!(session.on_packet(stranger, &packets[0], 10), PacketStep::Ignored));
    assert!(matches!(
        session.on_packet(peer, b"junk-junk-junk-junk-junk-junk", 10),
        PacketStep::Report(FragmentError::BadFragment)
    ));
    match session.on_packet(peer, &packets[0], 20) {
        PacketStep::Frame {
            header,
            data,
            action,
        } => {
            assert_eq!(header, h);
            assert_eq!(data, b"abc".to_vec());
            assert_eq!(action, GateAction::DecodeJpeg);
            assert!(session.shown(&header, 64, 48, 20));
        }
        _ => panic!("frame expected"),
    }
    assert!(matches!(session.on_packet(peer, &packets[0], 30), PacketStep::Frame { action: GateAction::Stale, .. }));
    assert!(!session.idle(3_000_000_020));
    assert!(session.idle(3_000_000_021));
    assert!(matches!(session.on_packet(stranger, b"CBP2", 3_000_000_021), PacketStep::Hello));
    assert!(matches!(session.on_packet(peer, &packets[0], 3_000_000_022), PacketStep::Ignored));
}

#[test]
fn decoded_headers_and_hellos_encode_to_their_bytes() {
    let mut bytes = header(TransportCodec::Av1, 77, true, 1000).encode().unwrap();
    bytes[7] = 9;
    bytes[10] = 8;
    bytes[11] = 7;
    let again = FrameHeader::decode(&bytes).unwrap().encode().unwrap();
    for i in 0..HEADER_LEN {
        if [7, 10, 11].contains(&i) {
            assert_eq!(again[i], 0);
        } else {
            assert_eq!(again[i], bytes[i]);
        }
    }
    let hello = vec![0x43, 0x42, 0x48, 0x32, 2, 0, 3, 5, 1, 3];
    assert_eq!(ReceiverHello::decode(&hello).unwrap().encode(), hello);
    assert_eq!(
        classify_device("ELGATO Game Capture", "USB#1"),
        classify_device("elgato game capture", "usb#1")
    );
}

#[test]
fn seventh_frame_evicts_the_earliest() {
    let mut r = Reassembler::new();
    for id in 0..6u64 {
        assert_eq!(r.push(id, 0, 2, 6, b"abc", 100 - id), Ok(None));
    }
    assert_eq!(r.push(6, 0, 2, 6, b"abc", 100), Ok(None));
    assert_eq!(r.push(5, 1, 2, 6, b"def", 100), Ok(None));
    assert_eq!(r.push(0, 1, 2, 6, b"def", 100), Ok(Some(b"abcdef".to_vec())));
}
