use vstd::prelude::*;

use crate::text::{
    ascii_lower, ascii_lower_seq, chars_of, contains, contains_run, decimal_text, digit_text, push_decimal,
    push_digit, push_lower,
};

verus! {

/// Pixel or bitstream format that a capture device delivers.
#[derive(Debug, Clone, Copy, PartialEq, Eq, Hash, Structural)]
pub enum PixelFormat {
    Mjpeg,
    H264,
    Hevc,
    Nv12,
    Yuy2,
    Xrgb8888,
    Av1,
    Unknown,
}

impl PixelFormat {
    /// The format's wire number; it also orders formats when modes are sorted.
    pub open spec fn spec_rank(self) -> u8 {
        match self {
            PixelFormat::Mjpeg => 1,
            PixelFormat::H264 => 2,
            PixelFormat::Hevc => 3,
            PixelFormat::Nv12 => 4,
            PixelFormat::Yuy2 => 5,
            PixelFormat::Xrgb8888 => 6,
            PixelFormat::Av1 => 7,
            PixelFormat::Unknown => 255,
        }
    }

    #[verifier::when_used_as_spec(spec_rank)]
    pub fn rank(self) -> (r: u8)
        ensures
            r == self.spec_rank(),
    {
        match self {
            PixelFormat::Mjpeg => 1,
            PixelFormat::H264 => 2,
            PixelFormat::Hevc => 3,
            PixelFormat::Nv12 => 4,
            PixelFormat::Yuy2 => 5,
            PixelFormat::Xrgb8888 => 6,
            PixelFormat::Av1 => 7,
            PixelFormat::Unknown => 255,
        }
    }

    /// The format's display name.
    pub open spec fn name_text(self) -> Seq<char> {
        match self {
            PixelFormat::Mjpeg => "MJPEG"@,
            PixelFormat::H264 => "H.264"@,
            PixelFormat::Hevc => "H.265/HEVC"@,
            PixelFormat::Nv12 => "NV12"@,
            PixelFormat::Yuy2 => "YUY2"@,
            PixelFormat::Xrgb8888 => "XRGB8888"@,
            PixelFormat::Av1 => "AV1"@,
            PixelFormat::Unknown => "알 수 없음"@,
        }
    }

    /// The format's display name.
    pub fn name(self) -> (r: String)
        ensures
            r@ == self.name_text(),
    {
        match self {
            PixelFormat::Mjpeg => String::from_str("MJPEG"),
            PixelFormat::H264 => String::from_str("H.264"),
            PixelFormat::Hevc => String::from_str("H.265/HEVC"),
            PixelFormat::Nv12 => String::from_str("NV12"),
            PixelFormat::Yuy2 => String::from_str("YUY2"),
            PixelFormat::Xrgb8888 => String::from_str("XRGB8888"),
            PixelFormat::Av1 => String::from_str("AV1"),
            PixelFormat::Unknown => String::from_str("알 수 없음"),
        }
    }

    pub open spec fn spec_compressed(self) -> bool {
        self is Mjpeg || self is H264 || self is Hevc || self is Av1
    }

    /// Whether the format is a compressed bitstream rather than raw pixels.
    #[verifier::when_used_as_spec(spec_compressed)]
    pub fn compressed(self) -> (r: bool)
        ensures
            r == self.spec_compressed(),
    {
        match self {
            PixelFormat::Mjpeg | PixelFormat::H264 | PixelFormat::Hevc | PixelFormat::Av1 => true,
            _ => false,
        }
    }
}

/// A frame rate as the exact fraction `numerator / denominator`.
#[derive(Debug, Clone, Copy, PartialEq, Eq, Hash, Structural)]
pub struct FrameRate {
    pub numerator: u32,
    pub denominator: u32,
}

impl FrameRate {
    pub fn new(numerator: u32, denominator: u32) -> (r: Self)
        ensures
            r.numerator == numerator,
            r.denominator == denominator,
    {
        FrameRate { numerator, denominator }
    }

    /// `self <= other` as fractions, compared by cross-multiplication.
    pub open spec fn spec_at_most(self, other: Self) -> bool {
        self.numerator * other.denominator <= other.numerator * self.denominator
    }

    #[verifier::when_used_as_spec(spec_at_most)]
    pub fn at_most(self, other: Self) -> (r: bool)
        ensures
            r == self.spec_at_most(other),
    {
        let a = self.numerator as u64;
        let b = other.denominator as u64;
        let c = other.numerator as u64;
        let d = self.denominator as u64;
        proof {
            assert(a * b <= u32::MAX * u32::MAX) by (nonlinear_arith)
                requires a <= u32::MAX, b <= u32::MAX;
            assert(c * d <= u32::MAX * u32::MAX) by (nonlinear_arith)
                requires c <= u32::MAX, d <= u32::MAX;
        }
        a * b <= c * d
    }
}

/// One native mode of a capture device, exactly as the driver advertises it.
#[derive(Debug, Clone, Copy, PartialEq, Eq, Hash, Structural)]
pub struct CaptureMode {
    pub width: u32,
    pub height: u32,
    pub fps: FrameRate,
    pub format: PixelFormat,
    pub native_type_index: u32,
    pub verified_openable: bool,
}

/// 2 to the power `k`.
pub open spec fn two_pow(k: nat) -> nat
    decreases k,
{
    if k == 0 {
        1
    } else {
        2 * two_pow((k - 1) as nat)
    }
}

/// The least `s` from `from` on (trying up to 120) with
/// `n * 2^s >= 2^52 * d`: the shift that puts `n / d` in `[2^52, 2^53)`.
pub open spec fn binary_shift(n: nat, d: nat, from: nat) -> nat
    decreases 120 - from,
{
    if from >= 120 || n * two_pow(from) >= two_pow(52) * d {
        from
    } else {
        binary_shift(n, d, from + 1)
    }
}

/// Where the `f64` nearest to `n / d` (53 significant bits, ties to even)
/// lies: above the fraction (1), on it (0), or below it (-1).
pub open spec fn f64_side(n: nat, d: nat) -> int {
    let a = n * two_pow(binary_shift(n, d, 0));
    let q = a / d;
    let r = a % d;
    if 2 * r > d || (2 * r == d && q % 2 == 1) {
        1
    } else if r == 0 {
        0
    } else {
        -1
    }
}

/// The frame rate in thousandths of a frame per second, as `f64` division
/// and three-decimal formatting give it: rounded to the nearest thousandth;
/// where the fraction lies exactly halfway, the `f64` value decides, and if
/// that is exactly halfway too, the even thousandth is taken. A zero
/// denominator counts as one.
pub open spec fn fps_millis(fps: FrameRate) -> nat {
    let den: int = if fps.denominator == 0 { 1 } else { fps.denominator as int };
    let scaled = (fps.numerator as int) * 1000;
    let q = scaled / den;
    let rem = scaled % den;
    let side = f64_side(fps.numerator as nat, den as nat);
    if 2 * rem > den || (2 * rem == den && (side > 0 || (side == 0 && q % 2 == 1))) {
        (q + 1) as nat
    } else {
        q as nat
    }
}

/// The frame rate with three decimals, as in `59.940`.
pub open spec fn fps_text(fps: FrameRate) -> Seq<char> {
    let m = fps_millis(fps);
    decimal_text(m / 1000) + "."@ + digit_text(((m % 1000) / 100) as int) + digit_text(
        ((m % 100) / 10) as int,
    ) + digit_text((m % 10) as int)
}

impl CaptureMode {
    /// The mode as one line of text: size, frame rate, format, and whether the
    /// driver accepted it.
    pub open spec fn label_text(&self) -> Seq<char> {
        decimal_text(self.width as nat) + "×"@ + decimal_text(self.height as nat) + " "@
            + fps_text(self.fps) + " fps "@ + self.format.name_text() + if self.verified_openable {
            " ✓"@
        } else {
            " (미검증)"@
        }
    }

    pub fn label(&self) -> (r: String)
        ensures
            r@ == self.label_text(),
    {
        let mut out = String::new();
        push_decimal(&mut out, self.width as u64);
        out.append("×");
        push_decimal(&mut out, self.height as u64);
        out.append(" ");
        let m = fps_millis_exec(self.fps);
        push_decimal(&mut out, m / 1000);
        out.append(".");
        push_digit(&mut out, (m % 1000) / 100);
        push_digit(&mut out, (m % 100) / 10);
        push_digit(&mut out, m % 10);
        out.append(" fps ");
        let name = self.format.name();
        out.append(name.as_str());
        if self.verified_openable {
            out.append(" ✓");
        } else {
            out.append(" (미검증)");
        }
        assert(out@ =~= self.label_text());
        out
    }
    pub open spec fn spec_allows_output(&self, width: u32, height: u32, fps: FrameRate) -> bool {
        width <= self.width && height <= self.height && fps.spec_at_most(self.fps)
    }

    /// An output never exceeds the selected input in size or frame rate.
    pub fn allows_output(&self, width: u32, height: u32, fps: FrameRate) -> (r: bool)
        ensures
            r == self.spec_allows_output(width, height, fps),
    {
        width <= self.width && height <= self.height && fps.at_most(self.fps)
    }
}

#[derive(Debug, Clone, Copy, PartialEq, Eq, Structural)]
pub enum DeviceKind {
    Webcam,
    CaptureDevice,
    VideoCaptureDevice,
}

#[derive(Debug, Clone)]
pub struct CaptureDevice {
    pub symbolic_link: String,
    pub name: String,
    pub kind: DeviceKind,
    pub modes: Vec<CaptureMode>,
    pub probe_error: Option<String>,
}

/// Name fragments that suggest a capture card.
pub open spec fn capture_hints() -> Seq<Seq<char>> {
    seq!["capture"@, "cam link"@, "elgato"@, "avermedia"@, "hdmi"@, "decklink"@]
}

/// Name fragments that suggest a camera.
pub open spec fn camera_hints() -> Seq<Seq<char>> {
    seq!["webcam"@, "camera"@, "facecam"@, "brio"@, "c920"@, "c922"@]
}

pub open spec fn any_hint(haystack: Seq<char>, hints: Seq<Seq<char>>) -> bool {
    exists|k: int| 0 <= k < hints.len() && #[trigger] contains_run(haystack, hints[k])
}

/// The lower-cased text that device hints are searched in: name, a space, link.
pub open spec fn device_haystack(name: Seq<char>, symbolic_link: Seq<char>) -> Seq<char> {
    ascii_lower_seq(name + seq![' '] + symbolic_link)
}

pub open spec fn spec_classify_device(name: Seq<char>, symbolic_link: Seq<char>) -> DeviceKind {
    let haystack = device_haystack(name, symbolic_link);
    if any_hint(haystack, capture_hints()) {
        DeviceKind::CaptureDevice
    } else if any_hint(haystack, camera_hints()) {
        DeviceKind::Webcam
    } else {
        DeviceKind::VideoCaptureDevice
    }
}

/// The kind depends on name and link only up to ASCII case: texts that
/// lower-case alike are classified alike.
pub proof fn lemma_classify_ignores_ascii_case(name1: Seq<char>, link1: Seq<char>, name2: Seq<char>, link2: Seq<char>)
    requires
        ascii_lower_seq(name1) == ascii_lower_seq(name2),
        ascii_lower_seq(link1) == ascii_lower_seq(link2),
    ensures
        spec_classify_device(name1, link1) == spec_classify_device(name2, link2),
{
    let a = name1 + seq![' '] + link1;
    let b = name2 + seq![' '] + link2;
    assert(name1.len() == ascii_lower_seq(name1).len());
    assert(name2.len() == ascii_lower_seq(name2).len());
    assert(link1.len() == ascii_lower_seq(link1).len());
    assert(link2.len() == ascii_lower_seq(link2).len());
    assert forall|i: int| 0 <= i < a.len() implies #[trigger] ascii_lower(a[i]) == ascii_lower(b[i]) by {
        if i < name1.len() {
            assert(a[i] == name1[i] && b[i] == name2[i]);
            assert(ascii_lower_seq(name1)[i] == ascii_lower(name1[i]));
            assert(ascii_lower_seq(name2)[i] == ascii_lower(name2[i]));
        } else if i > name1.len() {
            let j = i - name1.len() - 1;
            assert(a[i] == link1[j] && b[i] == link2[j]);
            assert(ascii_lower_seq(link1)[j] == ascii_lower(link1[j]));
            assert(ascii_lower_seq(link2)[j] == ascii_lower(link2[j]));
        } else {
            assert(a[i] == ' ' && b[i] == ' ');
        }
    }
    assert(device_haystack(name1, link1) =~= device_haystack(name2, link2));
}

/// Which words make a device what: in the lower-cased text of name, a space
/// and link, any of "capture", "cam link", "elgato", "avermedia", "hdmi" or
/// "decklink" makes it a capture device; otherwise any of "webcam", "camera",
/// "facecam", "brio", "c920" or "c922" makes it a webcam; otherwise it is a
/// plain video capture device.
pub proof fn lemma_classify_by_words(name: Seq<char>, link: Seq<char>)
    ensures
        ({
            let text = ascii_lower_seq(name + seq![' '] + link);
            let capture = contains_run(text, "capture"@) || contains_run(text, "cam link"@)
                || contains_run(text, "elgato"@) || contains_run(text, "avermedia"@)
                || contains_run(text, "hdmi"@) || contains_run(text, "decklink"@);
            let camera = contains_run(text, "webcam"@) || contains_run(text, "camera"@)
                || contains_run(text, "facecam"@) || contains_run(text, "brio"@)
                || contains_run(text, "c920"@) || contains_run(text, "c922"@);
            &&& capture ==> spec_classify_device(name, link) == DeviceKind::CaptureDevice
            &&& !capture && camera ==> spec_classify_device(name, link) == DeviceKind::Webcam
            &&& !capture && !camera ==> spec_classify_device(name, link) == DeviceKind::VideoCaptureDevice
        }),
{
    let text = ascii_lower_seq(name + seq![' '] + link);
    assert(text == device_haystack(name, link));
    let ch = capture_hints();
    let wh = camera_hints();
    assert(ch[0] == "capture"@ && ch[1] == "cam link"@ && ch[2] == "elgato"@);
    assert(ch[3] == "avermedia"@ && ch[4] == "hdmi"@ && ch[5] == "decklink"@);
    assert(wh[0] == "webcam"@ && wh[1] == "camera"@ && wh[2] == "facecam"@);
    assert(wh[3] == "brio"@ && wh[4] == "c920"@ && wh[5] == "c922"@);
    if any_hint(text, ch) {
        let k = choose|k: int| 0 <= k < ch.len() && #[trigger] contains_run(text, ch[k]);
        assert(k == 0 || k == 1 || k == 2 || k == 3 || k == 4 || k == 5);
    }
    if any_hint(text, wh) {
        let k = choose|k: int| 0 <= k < wh.len() && #[trigger] contains_run(text, wh[k]);
        assert(k == 0 || k == 1 || k == 2 || k == 3 || k == 4 || k == 5);
    }
}

fn any_hint_in(haystack: &Vec<char>, hints: &Vec<Vec<char>>) -> (r: bool)
    ensures
        r == any_hint(haystack@, hints@.map_values(|h: Vec<char>| h@)),
{
    let ghost views = hints@.map_values(|h: Vec<char>| h@);
    let mut k: usize = 0;
    while k < hints.len()
        invariant
            k <= hints@.len(),
            views == hints@.map_values(|h: Vec<char>| h@),
            forall|j: int| 0 <= j < k ==> !contains_run(haystack@, #[trigger] views[j]),
        decreases hints@.len() - k,
    {
        if contains(haystack.as_slice(), hints[k].as_slice()) {
            assert(contains_run(haystack@, views[k as int]));
            return true;
        }
        k = k + 1;
    }
    assert forall|j: int| 0 <= j < views.len() implies !#[trigger] contains_run(
        haystack@,
        views[j],
    ) by {}
    false
}

fn hint_list(a: &str, b: &str, c: &str, d: &str, e: &str, f: &str) -> (r: Vec<Vec<char>>)
    ensures
        r@.map_values(|h: Vec<char>| h@) == seq![a@, b@, c@, d@, e@, f@],
{
    let mut r: Vec<Vec<char>> = Vec::new();
    r.push(chars_of(a));
    r.push(chars_of(b));
    r.push(chars_of(c));
    r.push(chars_of(d));
    r.push(chars_of(e));
    r.push(chars_of(f));
    assert(r@.map_values(|h: Vec<char>| h@) =~= seq![a@, b@, c@, d@, e@, f@]);
    r
}

/// Guesses whether a device is a capture card or a camera from its name and
/// link. Media Foundation exposes no normative property for the distinction.
pub fn classify_device(name: &str, symbolic_link: &str) -> (r: DeviceKind)
    ensures
        r == spec_classify_device(name@, symbolic_link@),
{
    let mut haystack: Vec<char> = Vec::new();
    let name_chars = chars_of(name);
    let space = vec![' '];
    let link_chars = chars_of(symbolic_link);
    push_lower(&mut haystack, name_chars.as_slice());
    push_lower(&mut haystack, space.as_slice());
    push_lower(&mut haystack, link_chars.as_slice());
    assert(haystack@ =~= device_haystack(name@, symbolic_link@));
    let capture = hint_list("capture", "cam link", "elgato", "avermedia", "hdmi", "decklink");
    let camera = hint_list("webcam", "camera", "facecam", "brio", "c920", "c922");
    if any_hint_in(&haystack, &capture) {
        DeviceKind::CaptureDevice
    } else if any_hint_in(&haystack, &camera) {
        DeviceKind::Webcam
    } else {
        DeviceKind::VideoCaptureDevice
    }
}

/// Two modes are the same native mode: size, frame rate and format agree.
pub open spec fn same_mode(a: CaptureMode, b: CaptureMode) -> bool {
    a.width == b.width && a.height == b.height && a.fps == b.fps && a.format == b.format
}

/// Lexicographic order on (width, height, fps numerator, fps denominator, format).
pub open spec fn mode_before(a: CaptureMode, b: CaptureMode) -> bool {
    ||| a.width < b.width
    ||| a.width == b.width && a.height < b.height
    ||| a.width == b.width && a.height == b.height && a.fps.numerator < b.fps.numerator
    ||| a.width == b.width && a.height == b.height && a.fps.numerator == b.fps.numerator
        && a.fps.denominator < b.fps.denominator
    ||| a.width == b.width && a.height == b.height && a.fps == b.fps && a.format.spec_rank()
        < b.format.spec_rank()
}

/// `m` stands for `input[j]`: the same mode, with no larger native type index,
/// and where the indices tie, `m` is `input[j]` or occurs earlier in `input`.
pub open spec fn represents(m: CaptureMode, input: Seq<CaptureMode>, j: int) -> bool {
    &&& same_mode(m, input[j])
    &&& m.native_type_index <= input[j].native_type_index
    &&& m.native_type_index == input[j].native_type_index ==> exists|k: int|
        0 <= k <= j && #[trigger] input[k] == m
}

/// Entries of `r` are in strictly ascending mode order.
pub open spec fn modes_sorted(r: Seq<CaptureMode>) -> bool {
    forall|a: int, b: int| 0 <= a < b < r.len() ==> mode_before(#[trigger] r[a], #[trigger] r[b])
}

/// `m` is an entry of `input`.
pub open spec fn occurs_in(input: Seq<CaptureMode>, m: CaptureMode) -> bool {
    exists|k: int| 0 <= k < input.len() && #[trigger] input[k] == m
}

/// Some entry of `r` stands for `input[j]`.
pub open spec fn stood_for(input: Seq<CaptureMode>, r: Seq<CaptureMode>, j: int) -> bool {
    exists|a: int| 0 <= a < r.len() && #[trigger] represents(r[a], input, j)
}

/// Every entry of `r` is an entry of `input`.
pub open spec fn modes_drawn_from(input: Seq<CaptureMode>, r: Seq<CaptureMode>) -> bool {
    forall|a: int| 0 <= a < r.len() ==> #[trigger] occurs_in(input, r[a])
}

/// Every entry of `input` is stood for by an entry of `r`.
pub open spec fn modes_covered(input: Seq<CaptureMode>, r: Seq<CaptureMode>) -> bool {
    forall|j: int| 0 <= j < input.len() ==> #[trigger] stood_for(input, r, j)
}

/// `r` lists each distinct mode of `input` once, in ascending mode order; the
/// entry kept for a mode has the smallest native type index, the earliest such.
pub open spec fn exact_modes_of(input: Seq<CaptureMode>, r: Seq<CaptureMode>) -> bool {
    &&& modes_sorted(r)
    &&& modes_drawn_from(input, r)
    &&& modes_covered(input, r)
}

pub proof fn lemma_rank_injective(a: PixelFormat, b: PixelFormat)
    ensures
        a.spec_rank() == b.spec_rank() <==> a == b,
{
}

proof fn lemma_mode_order_total(a: CaptureMode, b: CaptureMode)
    ensures
        same_mode(a, b) || mode_before(a, b) || mode_before(b, a),
        !(mode_before(a, b) && mode_before(b, a)),
        same_mode(a, b) ==> !mode_before(a, b),
{
    lemma_rank_injective(a.format, b.format);
}

proof fn lemma_mode_order_transitive(a: CaptureMode, b: CaptureMode, c: CaptureMode)
    requires
        mode_before(a, b),
        mode_before(b, c),
    ensures
        mode_before(a, c),
{
}

fn mode_before_exec(a: &CaptureMode, b: &CaptureMode) -> (r: bool)
    ensures
        r == mode_before(*a, *b),
{
    if a.width != b.width {
        return a.width < b.width;
    }
    if a.height != b.height {
        return a.height < b.height;
    }
    if a.fps.numerator != b.fps.numerator {
        return a.fps.numerator < b.fps.numerator;
    }
    if a.fps.denominator != b.fps.denominator {
        return a.fps.denominator < b.fps.denominator;
    }
    a.format.rank() < b.format.rank()
}

fn same_mode_exec(a: &CaptureMode, b: &CaptureMode) -> (r: bool)
    ensures
        r == same_mode(*a, *b),
{
    a.width == b.width && a.height == b.height && a.fps == b.fps && a.format == b.format
}

/// Keeps each advertised native mode once, never combining the size of one
/// mode with the frame rate of another; the result is in ascending mode order.
pub fn exact_modes(advertised: Vec<CaptureMode>) -> (r: Vec<CaptureMode>)
    ensures
        exact_modes_of(advertised@, r@),
{
    let ghost input = advertised@;
    let mut r: Vec<CaptureMode> = Vec::new();
    let mut j: usize = 0;
    while j < advertised.len()
        invariant
            input == advertised@,
            j <= input.len(),
            exact_modes_of(input.take(j as int), r@),
        decreases input.len() - j,
    {
        let m = advertised[j];
        let ghost old_r = r@;
        let ghost prefix = input.take(j as int);
        let ghost next = input.take(j + 1);
        assert(next =~= prefix.push(m));
        // Look for the entry that already holds this mode.
        let mut p: usize = 0;
        while p < r.len() && !same_mode_exec(&r[p], &m)
            invariant
                r@ == old_r,
                p <= r@.len(),
                forall|a: int| 0 <= a < p ==> !same_mode(#[trigger] r@[a], m),
            decreases r@.len() - p,
        {
            p = p + 1;
        }
        if p < r.len() {
            if m.native_type_index < r[p].native_type_index {
                r.set(p, m);
            }
            proof {
                lemma_exact_modes_step_existing(input, j as int, old_r, p as int, r@);
            }
        } else {
            let mut q: usize = 0;
            while q < r.len() && !mode_before_exec(&m, &r[q])
                invariant
                    r@ == old_r,
                    q <= r@.len(),
                    forall|a: int| 0 <= a < q ==> !mode_before(m, #[trigger] r@[a]),
                decreases r@.len() - q,
            {
                q = q + 1;
            }
            r.insert(q, m);
            proof {
                lemma_exact_modes_step_new(input, j as int, old_r, q as int, r@);
            }
        }
        j = j + 1;
    }
    assert(input.take(input.len() as int) =~= input);
    r
}

proof fn lemma_exact_modes_step_existing(
    input: Seq<CaptureMode>,
    j: int,
    old_r: Seq<CaptureMode>,
    p: int,
    r: Seq<CaptureMode>,
)
    requires
        0 <= j < input.len(),
        exact_modes_of(input.take(j), old_r),
        0 <= p < old_r.len(),
        same_mode(old_r[p], input[j]),
        input[j].native_type_index < old_r[p].native_type_index ==> r == old_r.update(p, input[j]),
        !(input[j].native_type_index < old_r[p].native_type_index) ==> r == old_r,
    ensures
        exact_modes_of(input.take(j + 1), r),
{
    lemma_existing_sorted(input, j, old_r, p, r);
    lemma_existing_drawn(input, j, old_r, p, r);
    lemma_existing_covered(input, j, old_r, p, r);
}

proof fn lemma_existing_sorted(
    input: Seq<CaptureMode>,
    j: int,
    old_r: Seq<CaptureMode>,
    p: int,
    r: Seq<CaptureMode>,
)
    requires
        0 <= j < input.len(),
        modes_sorted(old_r),
        0 <= p < old_r.len(),
        same_mode(old_r[p], input[j]),
        input[j].native_type_index < old_r[p].native_type_index ==> r == old_r.update(p, input[j]),
        !(input[j].native_type_index < old_r[p].native_type_index) ==> r == old_r,
    ensures
        modes_sorted(r),
{
    assert forall|a: int, b: int| 0 <= a < b < r.len() implies mode_before(
        #[trigger] r[a],
        #[trigger] r[b],
    ) by {
        assert(mode_before(old_r[a], old_r[b]));
    }
}

proof fn lemma_existing_drawn(
    input: Seq<CaptureMode>,
    j: int,
    old_r: Seq<CaptureMode>,
    p: int,
    r: Seq<CaptureMode>,
)
    requires
        0 <= j < input.len(),
        modes_drawn_from(input.take(j), old_r),
        0 <= p < old_r.len(),
        input[j].native_type_index < old_r[p].native_type_index ==> r == old_r.update(p, input[j]),
        !(input[j].native_type_index < old_r[p].native_type_index) ==> r == old_r,
    ensures
        modes_drawn_from(input.take(j + 1), r),
{
    let prefix = input.take(j);
    let next = input.take(j + 1);
    let m = input[j];
    assert forall|a: int| 0 <= a < r.len() implies #[trigger] occurs_in(next, r[a]) by {
        if a == p && m.native_type_index < old_r[p].native_type_index {
            assert(next[j] == r[a]);
        } else {
            assert(old_r[a] == r[a]);
            assert(occurs_in(prefix, old_r[a]));
            let k = choose|k: int| 0 <= k < prefix.len() && #[trigger] prefix[k] == old_r[a];
            assert(next[k] == r[a]);
        }
    }
}

proof fn lemma_existing_covered(
    input: Seq<CaptureMode>,
    j: int,
    old_r: Seq<CaptureMode>,
    p: int,
    r: Seq<CaptureMode>,
)
    requires
        0 <= j < input.len(),
        modes_drawn_from(input.take(j), old_r),
        modes_covered(input.take(j), old_r),
        0 <= p < old_r.len(),
        same_mode(old_r[p], input[j]),
        input[j].native_type_index < old_r[p].native_type_index ==> r == old_r.update(p, input[j]),
        !(input[j].native_type_index < old_r[p].native_type_index) ==> r == old_r,
    ensures
        modes_covered(input.take(j + 1), r),
{
    let prefix = input.take(j);
    let next = input.take(j + 1);
    let m = input[j];
    assert forall|jj: int| 0 <= jj < next.len() implies #[trigger] stood_for(next, r, jj) by {
        if jj == j {
            if m.native_type_index < old_r[p].native_type_index {
                assert(next[j] == r[p]);
                assert(represents(r[p], next, jj));
            } else {
                assert(old_r[p] == r[p]);
                assert(occurs_in(prefix, old_r[p]));
                let k = choose|k: int| 0 <= k < prefix.len() && #[trigger] prefix[k] == old_r[p];
                assert(next[k] == r[p]);
                assert(represents(r[p], next, jj));
            }
        } else {
            assert(prefix[jj] == next[jj]);
            assert(stood_for(prefix, old_r, jj));
            let a = choose|a: int| 0 <= a < old_r.len() && #[trigger] represents(old_r[a], prefix, jj);
            if a == p && m.native_type_index < old_r[p].native_type_index {
                assert(represents(r[a], next, jj));
            } else {
                assert(old_r[a] == r[a]);
                if old_r[a].native_type_index == prefix[jj].native_type_index {
                    let k = choose|k: int| 0 <= k <= jj && #[trigger] prefix[k] == old_r[a];
                    assert(next[k] == r[a]);
                }
                assert(represents(r[a], next, jj));
            }
        }
    }
}

proof fn lemma_exact_modes_step_new(
    input: Seq<CaptureMode>,
    j: int,
    old_r: Seq<CaptureMode>,
    q: int,
    r: Seq<CaptureMode>,
)
    requires
        0 <= j < input.len(),
        exact_modes_of(input.take(j), old_r),
        forall|a: int| 0 <= a < old_r.len() ==> !same_mode(#[trigger] old_r[a], input[j]),
        0 <= q <= old_r.len(),
        forall|a: int| 0 <= a < q ==> !mode_before(input[j], #[trigger] old_r[a]),
        q < old_r.len() ==> mode_before(input[j], old_r[q]),
        r == old_r.insert(q, input[j]),
    ensures
        exact_modes_of(input.take(j + 1), r),
{
    lemma_new_sorted(input[j], old_r, q, r);
    lemma_new_drawn(input, j, old_r, q, r);
    lemma_new_covered(input, j, old_r, q, r);
}

proof fn lemma_new_sorted(m: CaptureMode, old_r: Seq<CaptureMode>, q: int, r: Seq<CaptureMode>)
    requires
        modes_sorted(old_r),
        forall|a: int| 0 <= a < old_r.len() ==> !same_mode(#[trigger] old_r[a], m),
        0 <= q <= old_r.len(),
        forall|a: int| 0 <= a < q ==> !mode_before(m, #[trigger] old_r[a]),
        q < old_r.len() ==> mode_before(m, old_r[q]),
        r == old_r.insert(q, m),
    ensures
        modes_sorted(r),
{
    assert forall|a: int| 0 <= a < q implies mode_before(#[trigger] old_r[a], m) by {
        lemma_mode_order_total(old_r[a], m);
    }
    assert forall|a: int| q <= a < old_r.len() implies mode_before(m, #[trigger] old_r[a]) by {
        if a > q {
            assert(mode_before(old_r[q], old_r[a]));
            lemma_mode_order_transitive(m, old_r[q], old_r[a]);
        }
    }
    assert forall|a: int, b: int| 0 <= a < b < r.len() implies mode_before(
        #[trigger] r[a],
        #[trigger] r[b],
    ) by {
        if b < q {
            assert(mode_before(old_r[a], old_r[b]));
        } else if b == q {
            assert(r[a] == old_r[a]);
        } else if a < q {
            assert(r[b] == old_r[b - 1]);
            assert(r[a] == old_r[a]);
            assert(mode_before(old_r[a], old_r[b - 1]));
        } else if a == q {
            assert(r[b] == old_r[b - 1]);
        } else {
            assert(r[b] == old_r[b - 1]);
            assert(r[a] == old_r[a - 1]);
            assert(mode_before(old_r[a - 1], old_r[b - 1]));
        }
    }
}

proof fn lemma_new_drawn(
    input: Seq<CaptureMode>,
    j: int,
    old_r: Seq<CaptureMode>,
    q: int,
    r: Seq<CaptureMode>,
)
    requires
        0 <= j < input.len(),
        modes_drawn_from(input.take(j), old_r),
        0 <= q <= old_r.len(),
        r == old_r.insert(q, input[j]),
    ensures
        modes_drawn_from(input.take(j + 1), r),
{
    let prefix = input.take(j);
    let next = input.take(j + 1);
    assert forall|a: int| 0 <= a < r.len() implies #[trigger] occurs_in(next, r[a]) by {
        if a == q {
            assert(next[j] == r[a]);
        } else if a < q {
            assert(r[a] == old_r[a]);
            assert(0 <= a < old_r.len());
            assert(occurs_in(prefix, old_r[a]));
            let k = choose|k: int| 0 <= k < prefix.len() && #[trigger] prefix[k] == old_r[a];
            assert(next[k] == r[a]);
        } else {
            assert(r[a] == old_r[a - 1]);
            assert(0 <= a - 1 < old_r.len());
            assert(occurs_in(prefix, old_r[a - 1]));
            let k = choose|k: int| 0 <= k < prefix.len() && #[trigger] prefix[k] == old_r[a - 1];
            assert(next[k] == r[a]);
        }
    }
}

proof fn lemma_new_covered(
    input: Seq<CaptureMode>,
    j: int,
    old_r: Seq<CaptureMode>,
    q: int,
    r: Seq<CaptureMode>,
)
    requires
        0 <= j < input.len(),
        modes_covered(input.take(j), old_r),
        0 <= q <= old_r.len(),
        r == old_r.insert(q, input[j]),
    ensures
        modes_covered(input.take(j + 1), r),
{
    let prefix = input.take(j);
    let next = input.take(j + 1);
    assert forall|jj: int| 0 <= jj < next.len() implies #[trigger] stood_for(next, r, jj) by {
        if jj == j {
            assert(next[j] == r[q]);
            assert(represents(r[q], next, jj));
        } else {
            assert(prefix[jj] == next[jj]);
            assert(stood_for(prefix, old_r, jj));
            let a = choose|a: int| 0 <= a < old_r.len() && #[trigger] represents(old_r[a], prefix, jj);
            let na = if a < q { a } else { a + 1 };
            assert(r[na] == old_r[a]);
            if old_r[a].native_type_index == prefix[jj].native_type_index {
                let k = choose|k: int| 0 <= k <= jj && #[trigger] prefix[k] == old_r[a];
                assert(next[k] == r[na]);
            }
            assert(represents(r[na], next, jj));
        }
    }
}

/// Codec of the frames on the wire.
#[derive(Debug, Clone, Copy, PartialEq, Eq, Hash, Structural)]
pub enum TransportCodec {
    Jpeg,
    H264,
    Hevc,
    Av1,
    Xrgb8888,
}

impl TransportCodec {
    pub open spec fn spec_from_input(format: PixelFormat) -> Option<TransportCodec> {
        match format {
            PixelFormat::Mjpeg => Some(TransportCodec::Jpeg),
            PixelFormat::H264 => Some(TransportCodec::H264),
            PixelFormat::Hevc => Some(TransportCodec::Hevc),
            PixelFormat::Av1 => Some(TransportCodec::Av1),
            PixelFormat::Xrgb8888 => Some(TransportCodec::Xrgb8888),
            _ => None,
        }
    }

    /// The transport codec that carries an input format unchanged, if any.
    #[verifier::when_used_as_spec(spec_from_input)]
    pub fn from_input(format: PixelFormat) -> (r: Option<TransportCodec>)
        ensures
            r == Self::spec_from_input(format),
    {
        match format {
            PixelFormat::Mjpeg => Some(TransportCodec::Jpeg),
            PixelFormat::H264 => Some(TransportCodec::H264),
            PixelFormat::Hevc => Some(TransportCodec::Hevc),
            PixelFormat::Av1 => Some(TransportCodec::Av1),
            PixelFormat::Xrgb8888 => Some(TransportCodec::Xrgb8888),
            _ => None,
        }
    }

    pub open spec fn spec_id(self) -> u8 {
        match self {
            TransportCodec::Jpeg => 1,
            TransportCodec::H264 => 2,
            TransportCodec::Hevc => 3,
            TransportCodec::Av1 => 4,
            TransportCodec::Xrgb8888 => 5,
        }
    }

    /// The codec's number on the wire.
    #[verifier::when_used_as_spec(spec_id)]
    pub fn id(self) -> (r: u8)
        ensures
            r == self.spec_id(),
    {
        match self {
            TransportCodec::Jpeg => 1,
            TransportCodec::H264 => 2,
            TransportCodec::Hevc => 3,
            TransportCodec::Av1 => 4,
            TransportCodec::Xrgb8888 => 5,
        }
    }

    pub open spec fn spec_from_id(id: u8) -> Option<TransportCodec> {
        if id == 1 {
            Some(TransportCodec::Jpeg)
        } else if id == 2 {
            Some(TransportCodec::H264)
        } else if id == 3 {
            Some(TransportCodec::Hevc)
        } else if id == 4 {
            Some(TransportCodec::Av1)
        } else if id == 5 {
            Some(TransportCodec::Xrgb8888)
        } else {
            None
        }
    }

    /// The codec with the given wire number, if there is one.
    #[verifier::when_used_as_spec(spec_from_id)]
    pub fn from_id(id: u8) -> (r: Option<TransportCodec>)
        ensures
            r == Self::spec_from_id(id),
    {
        match id {
            1 => Some(TransportCodec::Jpeg),
            2 => Some(TransportCodec::H264),
            3 => Some(TransportCodec::Hevc),
            4 => Some(TransportCodec::Av1),
            5 => Some(TransportCodec::Xrgb8888),
            _ => None,
        }
    }
}

/// A codec's wire number reads back as the same codec, and every number that
/// reads as a codec is that codec's number.
pub proof fn lemma_codec_id_round_trip(codec: TransportCodec, id: u8)
    ensures
        TransportCodec::spec_from_id(codec.spec_id()) == Some(codec),
        TransportCodec::spec_from_id(id) matches Some(c) ==> c.spec_id() == id,
        TransportCodec::spec_from_id(id) is None <==> (id == 0 || id > 5),
{
}

#[derive(Debug, Clone, Copy, PartialEq, Eq, Structural)]
pub enum Acceleration {
    Cpu,
    D3d11Hardware,
}

/// What one installed codec implementation can do.
#[derive(Debug, Clone, PartialEq, Eq)]
pub struct CodecCapability {
    pub codec: TransportCodec,
    pub acceleration: Acceleration,
    pub encoder_name: String,
    pub can_encode: bool,
    pub can_decode: bool,
    pub max_width: u32,
    pub max_height: u32,
    pub max_fps: u32,
}

pub open spec fn is_encoder_for(c: CodecCapability, codec: TransportCodec) -> bool {
    c.codec == codec && c.can_encode
}

/// The capabilities, in order, that can encode `codec`.
pub open spec fn encoders_for(caps: Seq<CodecCapability>, codec: TransportCodec) -> Seq<CodecCapability>
    decreases caps.len(),
{
    if caps.len() == 0 {
        Seq::empty()
    } else if is_encoder_for(caps.last(), codec) {
        encoders_for(caps.drop_last(), codec).push(caps.last())
    } else {
        encoders_for(caps.drop_last(), codec)
    }
}

/// The capabilities, in their order, that can encode `codec`.
pub fn available_encoders<'a>(capabilities: &'a [CodecCapability], codec: TransportCodec) -> (r: Vec<&'a CodecCapability>)
    ensures
        r@.len() == encoders_for(capabilities@, codec).len(),
        forall|i: int| 0 <= i < r@.len() ==> *#[trigger] r@[i] == encoders_for(capabilities@, codec)[i],
{
    let mut r: Vec<&'a CodecCapability> = Vec::new();
    let mut i: usize = 0;
    while i < capabilities.len()
        invariant
            i <= capabilities@.len(),
            r@.len() == encoders_for(capabilities@.take(i as int), codec).len(),
            forall|k: int| 0 <= k < r@.len() ==> *#[trigger] r@[k] == encoders_for(capabilities@.take(i as int), codec)[k],
        decreases capabilities@.len() - i,
    {
        let c = &capabilities[i];
        assert(capabilities@.take(i + 1).drop_last() =~= capabilities@.take(i as int));
        if c.codec == codec && c.can_encode {
            r.push(c);
        }
        i = i + 1;
    }
    assert(capabilities@.take(capabilities@.len() as int) =~= capabilities@);
    r
}

/// Bits per second of raw 4-byte pixels at the given size and frame rate,
/// capped at `u64::MAX`; a zero denominator counts as one.
pub open spec fn spec_xrgb_bandwidth(width: u32, height: u32, fps: FrameRate) -> int {
    let den: int = if fps.denominator == 0 { 1 } else { fps.denominator as int };
    let bits = (width as int) * (height as int) * 4 * (fps.numerator as int) / den * 8;
    if bits > u64::MAX { u64::MAX as int } else { bits }
}

pub fn xrgb_bandwidth_bps(width: u32, height: u32, fps: FrameRate) -> (r: u64)
    ensures
        r == spec_xrgb_bandwidth(width, height, fps),
{
    let w = width as u128;
    let h = height as u128;
    let n = fps.numerator as u128;
    let den: u128 = if fps.denominator == 0 { 1 } else { fps.denominator as u128 };
    proof {
        assert(w * h <= 0xffff_ffffu128 * 0xffff_ffffu128) by (nonlinear_arith)
            requires w <= 0xffff_ffffu128, h <= 0xffff_ffffu128;
        assert(w * h * 4 * n <= 0xffff_ffffu128 * 0xffff_ffffu128 * 4 * 0xffff_ffffu128) by (nonlinear_arith)
            requires w * h <= 0xffff_ffffu128 * 0xffff_ffffu128, n <= 0xffff_ffffu128;
    }
    let bytes_per_frame = w * h * 4;
    let product = bytes_per_frame * n;
    let bytes_per_second = product / den;
    proof {
        assert(bytes_per_second <= product) by (nonlinear_arith)
            requires bytes_per_second == product / den, den >= 1;
    }
    let bits = bytes_per_second * 8;
    if bits > u64::MAX as u128 {
        u64::MAX
    } else {
        bits as u64
    }
}

fn f64_side_exec(n: u32, d: u32) -> (r: i8)
    requires
        d >= 1,
    ensures
        r == f64_side(n as nat, d as nat),
{
    assert(two_pow(52) == 4503599627370496) by {
        reveal_with_fuel(two_pow, 53);
    }
    let limit: u128 = d as u128 * 4503599627370496;
    let mut a: u128 = n as u128;
    let mut s: u32 = 0;
    assert(two_pow(0) == 1);
    while s < 120 && a < limit
        invariant
            d >= 1,
            limit == two_pow(52) * (d as int),
            limit <= 0xffff_ffffu128 * 4503599627370496,
            s <= 120,
            a == (n as int) * two_pow(s as nat),
            a <= 2 * limit,
            binary_shift(n as nat, d as nat, 0) == binary_shift(n as nat, d as nat, s as nat),
        decreases 120 - s,
    {
        assert(two_pow((s + 1) as nat) == 2 * two_pow(s as nat));
        assert(binary_shift(n as nat, d as nat, s as nat) == binary_shift(n as nat, d as nat, (s + 1) as nat));
        assert(a * 2 == (n as int) * two_pow((s + 1) as nat)) by (nonlinear_arith)
            requires a == (n as int) * two_pow(s as nat), two_pow((s + 1) as nat) == 2 * two_pow(s as nat);
        a = a * 2;
        s = s + 1;
    }
    let q = a / d as u128;
    let r = a % d as u128;
    if 2 * r > d as u128 || (2 * r == d as u128 && q % 2 == 1) {
        1
    } else if r == 0 {
        0
    } else {
        -1
    }
}

fn fps_millis_exec(fps: FrameRate) -> (r: u64)
    ensures
        r == fps_millis(fps),
{
    let den: u64 = if fps.denominator == 0 { 1 } else { fps.denominator as u64 };
    let scaled: u64 = fps.numerator as u64 * 1000;
    let q = scaled / den;
    let rem = scaled % den;
    proof {
        assert(q <= scaled) by (nonlinear_arith)
            requires q == scaled / den, den >= 1;
        assert(rem < den) by (nonlinear_arith)
            requires rem == scaled % den, den >= 1;
    }
    let side = f64_side_exec(fps.numerator, den as u32);
    if 2 * rem > den || (2 * rem == den && (side > 0 || (side == 0 && q % 2 == 1))) {
        q + 1
    } else {
        q
    }
}

} // verus!
