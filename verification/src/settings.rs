use vstd::prelude::*;

use crate::capability::{CaptureDevice, CaptureMode, PixelFormat, TransportCodec};
use crate::runtime::{is_test_device, test_device};
use crate::text::chars_of;

verus! {

/// Output size divisor for a choice of the size list: same, half, quarter.
pub open spec fn spec_scale_divisor(selection: usize) -> u32 {
    if selection == 0 { 1 } else if selection == 1 { 2 } else { 4 }
}

pub fn scale_divisor(selection: usize) -> (r: u32)
    ensures
        r == spec_scale_divisor(selection),
{
    if selection == 0 { 1 } else if selection == 1 { 2 } else { 4 }
}

/// Frame rate limit for a choice of the rate list: none, 30, 15.
pub open spec fn spec_fps_cap(selection: usize) -> u32 {
    if selection == 0 { 0 } else if selection == 1 { 30 } else { 15 }
}

pub fn fps_cap(selection: usize) -> (r: u32)
    ensures
        r == spec_fps_cap(selection),
{
    if selection == 0 { 0 } else if selection == 1 { 30 } else { 15 }
}

/// The transport codec of a choice of the codec list: JPEG, XRGB, then the
/// probed encoders in order, then the device's own bitstream (JPEG when
/// there is none).
pub open spec fn spec_selected_codec(selection: usize, encoders: Seq<TransportCodec>, native: Option<TransportCodec>) -> TransportCodec {
    if selection == 0 {
        TransportCodec::Jpeg
    } else if selection == 1 {
        TransportCodec::Xrgb8888
    } else if selection < encoders.len() + 2 {
        encoders[selection - 2]
    } else {
        match native {
            Some(c) => c,
            None => TransportCodec::Jpeg,
        }
    }
}

pub fn selected_codec(selection: usize, encoders: &[TransportCodec], native: Option<TransportCodec>) -> (r: TransportCodec)
    ensures
        r == spec_selected_codec(selection, encoders@, native),
{
    if selection == 0 {
        TransportCodec::Jpeg
    } else if selection == 1 {
        TransportCodec::Xrgb8888
    } else if selection - 2 < encoders.len() {
        encoders[selection - 2]
    } else {
        match native {
            Some(c) => c,
            None => TransportCodec::Jpeg,
        }
    }
}

/// The index among `count` probed encoders that a codec choice names.
pub fn selected_encoder(selection: usize, count: usize) -> (r: Option<usize>)
    ensures
        r == (if 2 <= selection < count + 2 { Some((selection - 2) as usize) } else { None::<usize> }),
{
    if selection >= 2 && selection - 2 < count {
        Some(selection - 2)
    } else {
        None
    }
}

/// The device's compressed bitstream, offered as a codec choice only at the
/// input's own size and rate.
pub open spec fn spec_native_passthrough(format: PixelFormat, scale_selection: usize, fps_selection: usize) -> Option<TransportCodec> {
    if scale_selection != 0 || fps_selection != 0 {
        None
    } else {
        match TransportCodec::spec_from_input(format) {
            Some(c) => if c == TransportCodec::Jpeg || c == TransportCodec::Xrgb8888 { None } else { Some(c) },
            None => None,
        }
    }
}

pub fn native_passthrough(format: PixelFormat, scale_selection: usize, fps_selection: usize) -> (r: Option<TransportCodec>)
    ensures
        r == spec_native_passthrough(format, scale_selection, fps_selection),
{
    if scale_selection != 0 || fps_selection != 0 {
        return None;
    }
    match TransportCodec::from_input(format) {
        Some(c) => match c {
            TransportCodec::Jpeg | TransportCodec::Xrgb8888 => None,
            _ => Some(c),
        },
        None => None,
    }
}

pub open spec fn is_digit(c: char) -> bool {
    '0' <= c && c <= '9'
}

pub open spec fn all_digits(s: Seq<char>) -> bool {
    forall|i: int| 0 <= i < s.len() ==> #[trigger] is_digit(s[i])
}

/// The number that a run of decimal digits spells.
pub open spec fn digits_value(s: Seq<char>) -> nat
    decreases s.len(),
{
    if s.len() == 0 {
        0
    } else {
        digits_value(s.drop_last()) * 10 + ((s.last() as u32) - ('0' as u32)) as nat
    }
}

/// The text without one leading `+`.
pub open spec fn unsigned_digits(s: Seq<char>) -> Seq<char> {
    if s.len() > 0 && s[0] == '+' { s.skip(1) } else { s }
}

/// A whole text read as an unsigned decimal number of at most `max`: an
/// optional `+`, then one or more ASCII digits, nothing else (no spaces).
pub open spec fn spec_parse_unsigned(s: Seq<char>, max: nat) -> Option<nat> {
    let d = unsigned_digits(s);
    if d.len() == 0 || !all_digits(d) || digits_value(d) > max {
        None
    } else {
        Some(digits_value(d))
    }
}

proof fn lemma_value_grows(s: Seq<char>, i: int)
    requires
        0 <= i <= s.len(),
        all_digits(s),
    ensures
        digits_value(s.take(i)) <= digits_value(s),
    decreases s.len() - i,
{
    if i < s.len() {
        lemma_value_grows(s, i + 1);
        assert(s.take(i + 1).drop_last() =~= s.take(i));
        assert(is_digit(s[i]));
    } else {
        assert(s.take(i) =~= s);
    }
}

/// Reads a whole text as an unsigned decimal of at most `max`.
pub fn parse_unsigned(text: &str, max: u32) -> (r: Option<u32>)
    ensures
        match spec_parse_unsigned(text@, max as nat) {
            Some(v) => r == Some(v as u32),
            None => r is None,
        },
{
    let chars = chars_of(text);
    let start: usize = if chars.len() > 0 && chars[0] == '+' { 1 } else { 0 };
    let ghost d = unsigned_digits(text@);
    assert(d =~= chars@.skip(start as int));
    if start >= chars.len() {
        return None;
    }
    let mut value: u64 = 0;
    let mut over = false;
    let mut i: usize = start;
    while i < chars.len()
        invariant
            start <= i <= chars@.len(),
            d == chars@.skip(start as int),
            d == unsigned_digits(text@),
            max <= u32::MAX,
            all_digits(d.take(i - start)),
            !over ==> value == digits_value(d.take(i - start)) && value <= max,
            over ==> digits_value(d.take(i - start)) > max,
        decreases chars@.len() - i,
    {
        let c = chars[i];
        if c < '0' || c > '9' {
            assert(d[i - start] == c);
            assert(!is_digit(d[i - start]));
            assert(!all_digits(d));
            return None;
        }
        assert(d.take(i - start + 1).drop_last() =~= d.take(i - start));
        assert(d.take(i - start + 1).last() == c);
        assert(all_digits(d.take(i - start + 1))) by {
            assert forall|k: int| 0 <= k < d.take(i - start + 1).len() implies #[trigger] is_digit(d.take(i - start + 1)[k]) by {
                if k < i - start {
                    assert(d.take(i - start + 1)[k] == d.take(i - start)[k]);
                }
            }
        }
        let digit = (c as u32 - '0' as u32) as u64;
        if !over {
            let next = value * 10 + digit;
            if next > max as u64 {
                over = true;
            } else {
                value = next;
            }
        }
        i = i + 1;
    }
    assert(d.take(i - start) =~= d);
    if over {
        return None;
    }
    Some(value as u32)
}

/// The JPEG quality field: a number up to 255 brought into 1 to 100; 85
/// when the field holds no such number.
pub open spec fn spec_jpeg_quality(text: Seq<char>) -> u8 {
    let q: nat = match spec_parse_unsigned(text, 255) {
        Some(v) => v,
        None => 85,
    };
    if q < 1 { 1 } else if q > 100 { 100 } else { q as u8 }
}

pub fn jpeg_quality(text: &str) -> (r: u8)
    ensures
        r == spec_jpeg_quality(text@),
{
    let q = match parse_unsigned(text, 255) {
        Some(v) => v,
        None => 85,
    };
    if q < 1 { 1 } else if q > 100 { 100 } else { q as u8 }
}

/// The bitrate field in Mbit/s: a 32-bit number brought into 1 to 200; 8
/// when the field holds no such number. The result is in bit/s.
pub open spec fn spec_bitrate_bps(text: Seq<char>) -> u32 {
    let m: nat = match spec_parse_unsigned(text, u32::MAX as nat) {
        Some(v) => v,
        None => 8,
    };
    let c: nat = if m < 1 { 1 } else if m > 200 { 200 } else { m };
    (c * 1000000) as u32
}

pub fn bitrate_bps(text: &str) -> (r: u32)
    ensures
        r == spec_bitrate_bps(text@),
{
    let m = match parse_unsigned(text, u32::MAX) {
        Some(v) => v,
        None => 8,
    };
    let c = if m < 1 { 1 } else if m > 200 { 200 } else { m };
    c * 1000000
}

/// The name prefix of this program's own virtual camera.
pub open spec fn own_camera_prefix() -> Seq<char> {
    seq!['C', 'a', 'm', 'B', 'r', 'i', 'd', 'g', 'e']
}

pub open spec fn is_own_camera(name: Seq<char>) -> bool {
    name.len() >= 9 && name.take(9) == own_camera_prefix()
}

/// The found devices other than this program's own virtual camera, in order.
pub open spec fn foreign_devices(found: Seq<CaptureDevice>) -> Seq<CaptureDevice>
    decreases found.len(),
{
    if found.len() == 0 {
        found
    } else if !is_own_camera(found.last().name@) {
        foreign_devices(found.drop_last()).push(found.last())
    } else {
        foreign_devices(found.drop_last())
    }
}

fn own_camera(name: &String) -> (r: bool)
    ensures
        r == is_own_camera(name@),
{
    let chars = chars_of(name.as_str());
    let prefix: [char; 9] = ['C', 'a', 'm', 'B', 'r', 'i', 'd', 'g', 'e'];
    assert(prefix@ =~= own_camera_prefix());
    if chars.len() < 9 {
        return false;
    }
    let mut i: usize = 0;
    while i < 9
        invariant
            i <= 9,
            chars@.len() >= 9,
            chars@ == name@,
            prefix@ == own_camera_prefix(),
            forall|k: int| 0 <= k < i ==> chars@[k] == prefix@[k],
        decreases 9 - i,
    {
        if chars[i] != prefix[i] {
            assert(chars@.take(9)[i as int] == chars@[i as int]);
            assert(prefix@[i as int] == own_camera_prefix()[i as int]);
            assert(chars@.take(9)[i as int] != own_camera_prefix()[i as int]);
            return false;
        }
        i = i + 1;
    }
    assert(chars@.take(9) =~= own_camera_prefix());
    true
}

/// The device list to offer: the devices found, without this program's own
/// virtual camera, then the test pattern.
pub fn listed_devices(found: Vec<CaptureDevice>) -> (r: Vec<CaptureDevice>)
    ensures
        r@.len() == foreign_devices(found@).len() + 1,
        forall|i: int| 0 <= i < foreign_devices(found@).len() ==> r@[i] == foreign_devices(found@)[i],
        is_test_device(r@.last()),
{
    let ghost listed = found@;
    let mut rest = found;
    let mut kept: Vec<CaptureDevice> = Vec::new();
    let mut taken: usize = 0;
    let total = rest.len();
    while rest.len() > 0
        invariant
            total == listed.len(),
            taken <= listed.len(),
            rest@ == listed.skip(taken as int),
            kept@ == foreign_devices(listed.take(taken as int)),
        decreases rest@.len(),
    {
        let d = rest.remove(0);
        assert(listed.take(taken + 1).drop_last() =~= listed.take(taken as int));
        assert(listed.take(taken + 1).last() == d);
        if !own_camera(&d.name) {
            kept.push(d);
        }
        taken = taken + 1;
        assert(rest@ =~= listed.skip(taken as int));
    }
    assert(listed.take(taken as int) =~= listed);
    kept.push(test_device());
    kept
}

/// Why sending cannot start with the current choices.
#[derive(Debug, Clone, Copy, PartialEq, Eq, Structural)]
pub enum SendRefusal {
    NoDevice,
    NoMode,
    ModeNotOpenable,
}

pub open spec fn spec_send_mode(devices: Seq<CaptureDevice>, device: usize, mode: usize) -> Result<CaptureMode, SendRefusal> {
    if device >= devices.len() {
        Err(SendRefusal::NoDevice)
    } else if mode >= devices[device as int].modes@.len() {
        Err(SendRefusal::NoMode)
    } else if !devices[device as int].modes@[mode as int].verified_openable {
        Err(SendRefusal::ModeNotOpenable)
    } else {
        Ok(devices[device as int].modes@[mode as int])
    }
}

/// The input mode to send from: the chosen mode of the chosen device, which
/// the driver must have accepted.
pub fn send_mode(devices: &[CaptureDevice], device: usize, mode: usize) -> (r: Result<CaptureMode, SendRefusal>)
    ensures
        r == spec_send_mode(devices@, device, mode),
{
    if device >= devices.len() {
        return Err(SendRefusal::NoDevice);
    }
    let d = &devices[device];
    if mode >= d.modes.len() {
        return Err(SendRefusal::NoMode);
    }
    let m = d.modes[mode];
    if !m.verified_openable {
        return Err(SendRefusal::ModeNotOpenable);
    }
    Ok(m)
}

} // verus!
