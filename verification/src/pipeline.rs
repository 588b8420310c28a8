use vstd::prelude::*;

use crate::capability::{
    available_encoders, encoders_for, CaptureMode, CodecCapability, PixelFormat, TransportCodec,
};

verus! {

/// How a captured frame reaches the wire.
#[derive(Debug, Clone, Copy, PartialEq, Eq, Structural)]
pub enum PipelinePlan {
    Passthrough,
    RawPassthrough,
    DecodeAndEncode,
    ConvertAndEncode,
}

#[derive(Debug, Clone, Copy, PartialEq, Eq, Structural)]
pub enum PlanError {
    EncoderUnavailable(TransportCodec),
    DecoderUnavailable(PixelFormat),
    RawFormatMismatch,
}

/// Some capability decodes the bitstream of `format`.
pub open spec fn has_decoder_for(caps: Seq<CodecCapability>, format: PixelFormat) -> bool {
    exists|i: int|
        0 <= i < caps.len() && #[trigger] caps[i].can_decode && TransportCodec::spec_from_input(
            format,
        ) == Some(caps[i].codec)
}

pub open spec fn spec_plan_pipeline(
    input: CaptureMode,
    transport: TransportCodec,
    caps: Seq<CodecCapability>,
) -> Result<PipelinePlan, PlanError> {
    if TransportCodec::spec_from_input(input.format) == Some(transport) {
        Ok(
            if input.format == PixelFormat::Xrgb8888 {
                PipelinePlan::RawPassthrough
            } else {
                PipelinePlan::Passthrough
            },
        )
    } else if transport == TransportCodec::Xrgb8888 {
        Err(PlanError::RawFormatMismatch)
    } else if encoders_for(caps, transport).len() == 0 {
        Err(PlanError::EncoderUnavailable(transport))
    } else if input.format.spec_compressed() && !has_decoder_for(caps, input.format) {
        Err(PlanError::DecoderUnavailable(input.format))
    } else if input.format.spec_compressed() {
        Ok(PipelinePlan::DecodeAndEncode)
    } else {
        Ok(PipelinePlan::ConvertAndEncode)
    }
}

proof fn lemma_no_encoder(caps: Seq<CodecCapability>, codec: TransportCodec)
    ensures
        encoders_for(caps, codec).len() == 0 <==> forall|i: int|
            0 <= i < caps.len() ==> !(#[trigger] caps[i].can_encode && caps[i].codec == codec),
    decreases caps.len(),
{
    if caps.len() > 0 {
        let rest = caps.drop_last();
        let last = caps.len() - 1;
        lemma_no_encoder(rest, codec);
        assert forall|i: int| 0 <= i < rest.len() implies #[trigger] rest[i] == caps[i] by {}
        if caps[last].can_encode && caps[last].codec == codec {
            assert(encoders_for(caps, codec) == encoders_for(rest, codec).push(caps.last()));
        } else {
            assert(encoders_for(caps, codec) == encoders_for(rest, codec));
            if encoders_for(caps, codec).len() == 0 {
                assert forall|i: int| 0 <= i < caps.len() implies !(#[trigger] caps[i].can_encode && caps[i].codec == codec) by {
                    if i < last {
                        assert(rest[i] == caps[i]);
                    }
                }
            } else {
                if forall|i: int| 0 <= i < caps.len() ==> !(#[trigger] caps[i].can_encode && caps[i].codec == codec) {
                    assert forall|i: int| 0 <= i < rest.len() implies !(#[trigger] rest[i].can_encode && rest[i].codec == codec) by {
                        assert(rest[i] == caps[i]);
                    }
                }
            }
        }
    }
}

/// What a plan promises: the input goes out unchanged exactly when the device
/// already delivers the transport bitstream; otherwise XRGB is refused, and
/// any other transport needs a capability that encodes it, whether the input
/// is compressed or raw, the answer being `EncoderUnavailable(transport)`
/// where none does; a compressed input also needs a capability that decodes
/// it; and a plan that encodes decodes first exactly when the input is
/// compressed; with the codecs it needs, a compressed input is decoded and
/// encoded and a raw one converted and encoded.
pub proof fn lemma_plan_needs_codecs(input: CaptureMode, transport: TransportCodec, caps: Seq<CodecCapability>)
    ensures
        ({
            let r = spec_plan_pipeline(input, transport, caps);
            let unchanged = TransportCodec::spec_from_input(input.format) == Some(transport);
            let can_encode = exists|i: int|
                0 <= i < caps.len() && #[trigger] caps[i].can_encode && caps[i].codec == transport;
            &&& unchanged ==> r is Ok && (r == Ok::<PipelinePlan, PlanError>(PipelinePlan::RawPassthrough)
                <==> input.format == PixelFormat::Xrgb8888)
            &&& (r == Ok::<PipelinePlan, PlanError>(PipelinePlan::Passthrough)
                || r == Ok::<PipelinePlan, PlanError>(PipelinePlan::RawPassthrough)) ==> unchanged
            &&& !unchanged && transport == TransportCodec::Xrgb8888 ==> r == Err::<PipelinePlan, PlanError>(
                PlanError::RawFormatMismatch)
            &&& !unchanged && transport != TransportCodec::Xrgb8888 && !can_encode ==> r
                == Err::<PipelinePlan, PlanError>(PlanError::EncoderUnavailable(transport))
            &&& (r == Ok::<PipelinePlan, PlanError>(PipelinePlan::DecodeAndEncode)
                || r == Ok::<PipelinePlan, PlanError>(PipelinePlan::ConvertAndEncode)) ==> can_encode
                && transport != TransportCodec::Xrgb8888 && !unchanged
            &&& r == Ok::<PipelinePlan, PlanError>(PipelinePlan::DecodeAndEncode) ==> input.format.spec_compressed()
                && exists|i: int| 0 <= i < caps.len() && #[trigger] caps[i].can_decode
                    && TransportCodec::spec_from_input(input.format) == Some(caps[i].codec)
            &&& r == Ok::<PipelinePlan, PlanError>(PipelinePlan::ConvertAndEncode) ==> !input.format.spec_compressed()
            &&& !unchanged && transport != TransportCodec::Xrgb8888 && can_encode && input.format.spec_compressed()
                && !(exists|i: int| 0 <= i < caps.len() && #[trigger] caps[i].can_decode
                    && TransportCodec::spec_from_input(input.format) == Some(caps[i].codec))
                ==> r == Err::<PipelinePlan, PlanError>(PlanError::DecoderUnavailable(input.format))
            &&& !unchanged && transport != TransportCodec::Xrgb8888 && can_encode && !input.format.spec_compressed()
                ==> r == Ok::<PipelinePlan, PlanError>(PipelinePlan::ConvertAndEncode)
            &&& !unchanged && transport != TransportCodec::Xrgb8888 && can_encode && (exists|i: int|
                0 <= i < caps.len() && #[trigger] caps[i].can_decode && TransportCodec::spec_from_input(input.format)
                    == Some(caps[i].codec)) && input.format.spec_compressed() ==> r == Ok::<PipelinePlan, PlanError>(
                PipelinePlan::DecodeAndEncode)
        }),
{
    lemma_no_encoder(caps, transport);
}

/// Chooses how frames of `input` become `transport` frames: unchanged when the
/// device already delivers that bitstream, otherwise through an encoder (and a
/// decoder first when the input is compressed).
pub fn plan_pipeline(
    input: &CaptureMode,
    transport: TransportCodec,
    capabilities: &[CodecCapability],
) -> (r: Result<PipelinePlan, PlanError>)
    ensures
        r == spec_plan_pipeline(*input, transport, capabilities@),
{
    if TransportCodec::from_input(input.format) == Some(transport) {
        return Ok(
            if input.format == PixelFormat::Xrgb8888 {
                PipelinePlan::RawPassthrough
            } else {
                PipelinePlan::Passthrough
            },
        );
    }
    if transport == TransportCodec::Xrgb8888 {
        return Err(PlanError::RawFormatMismatch);
    }
    if available_encoders(capabilities, transport).len() == 0 {
        return Err(PlanError::EncoderUnavailable(transport));
    }
    if input.format.compressed() {
        let wanted = TransportCodec::from_input(input.format);
        let mut i: usize = 0;
        let mut found = false;
        while i < capabilities.len() && !found
            invariant
                i <= capabilities@.len(),
                wanted == TransportCodec::spec_from_input(input.format),
                found ==> has_decoder_for(capabilities@, input.format),
                !found ==> forall|k: int|
                    0 <= k < i ==> !(#[trigger] capabilities@[k].can_decode && wanted == Some(
                        capabilities@[k].codec,
                    )),
            decreases capabilities@.len() - i,
        {
            let c = &capabilities[i];
            if c.can_decode && wanted == Some(c.codec) {
                found = true;
            }
            i = i + 1;
        }
        if !found {
            return Err(PlanError::DecoderUnavailable(input.format));
        }
        Ok(PipelinePlan::DecodeAndEncode)
    } else {
        Ok(PipelinePlan::ConvertAndEncode)
    }
}

#[derive(Debug, Clone, Copy, PartialEq, Eq, Structural)]
pub enum SenderWork {
    CapturePreviewAndLocalCameraOnly,
    CaptureAndTransmit,
}

/// Without a live receiver the sender only captures for preview and the local
/// virtual camera; nothing is encoded for the network.
pub fn sender_work(has_live_receiver: bool) -> (r: SenderWork)
    ensures
        r == (if has_live_receiver {
            SenderWork::CaptureAndTransmit
        } else {
            SenderWork::CapturePreviewAndLocalCameraOnly
        }),
{
    if has_live_receiver {
        SenderWork::CaptureAndTransmit
    } else {
        SenderWork::CapturePreviewAndLocalCameraOnly
    }
}

} // verus!
