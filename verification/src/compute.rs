//! One slice of a model, run by another node: what is asked, what is answered,
//! and how a node hands its result on to the next one of a chain. The
//! activations travel sealed; only the two ends of each hop can read them.

use vstd::prelude::*;

use crate::crypto::array_of_32;
use crate::registry::WIRE_VERSION;
use crate::text;
use crate::transport::{decrypt, encrypt, KeyExchange, TransportError};

pub use crate::logits::{argmax_last_row, LogitsError};
pub use crate::tensor::{
    arguments_to_bytes, bytes_to_arguments, bytes_to_tensor_pub, tensor_to_bytes_pub, CodecError,
    Tensor,
};
use crate::tensor::{arguments_from_bytes, tensor_from_bytes, tensor_to_bytes};

verus! {

/// A part of an image that is refined apart from the rest: where it lies, how
/// much there is in all, and the further tensors that a layer takes.
#[derive(Debug)]
pub struct Patch {
    pub offset: u64,
    pub sequence: u64,
    pub branch: String,
    pub layout: String,
    pub arguments: Vec<(u32, Tensor)>,
}

/// What a [`Patch`] holds.
#[verifier::ext_equal]
pub struct PatchView {
    pub offset: u64,
    pub sequence: u64,
    pub branch: Seq<char>,
    pub layout: Seq<char>,
    pub arguments: Seq<(u32, crate::tensor::TensorView)>,
}

impl View for Patch {
    type V = PatchView;

    open spec fn view(&self) -> PatchView {
        PatchView {
            offset: self.offset,
            sequence: self.sequence,
            branch: self.branch@,
            layout: self.layout@,
            arguments: crate::tensor::argument_views(self.arguments@),
        }
    }
}

/// How the last slice draws a token: the bits of the 32-bit floating-point
/// settings, and the seed.
#[derive(Debug, Clone, Copy, PartialEq, Eq, Structural, Default)]
pub struct Draw {
    pub guidance_bits: u32,
    pub sample: bool,
    pub temperature_bits: u32,
    pub top_p_bits: u32,
    pub seed: u64,
}

/// One node of a chain, and the slice that it runs.
#[derive(Debug)]
pub struct Hop {
    pub compute_endpoint: String,
    pub kx_public: Vec<u8>,
    pub start_layer: u32,
    pub end_layer: u32,
    pub top_k: u32,
    pub accepts_bf16: bool,
}

/// What a [`Hop`] holds.
#[verifier::ext_equal]
pub struct HopView {
    pub compute_endpoint: Seq<char>,
    pub kx_public: Seq<u8>,
    pub start_layer: u32,
    pub end_layer: u32,
    pub top_k: u32,
    pub accepts_bf16: bool,
}

impl View for Hop {
    type V = HopView;

    open spec fn view(&self) -> HopView {
        HopView {
            compute_endpoint: self.compute_endpoint@,
            kx_public: self.kx_public@,
            start_layer: self.start_layer,
            end_layer: self.end_layer,
            top_k: self.top_k,
            accepts_bf16: self.accepts_bf16,
        }
    }
}

impl Clone for Hop {
    fn clone(&self) -> (r: Self)
        ensures
            r@ == self@,
    {
        Hop {
            compute_endpoint: self.compute_endpoint.clone(),
            kx_public: text::copy_bytes(&self.kx_public),
            start_layer: self.start_layer,
            end_layer: self.end_layer,
            top_k: self.top_k,
            accepts_bf16: self.accepts_bf16,
        }
    }
}

/// What the hops of a list hold.
pub open spec fn hop_views(hops: Seq<Hop>) -> Seq<HopView> {
    Seq::new(hops.len(), |i: int| hops[i]@)
}

/// The hops from `from` on.
pub fn hops_from(hops: &Vec<Hop>, from: usize) -> (r: Vec<Hop>)
    requires
        from <= hops@.len(),
    ensures
        hop_views(r@) == hop_views(hops@).skip(from as int),
{
    let mut r: Vec<Hop> = Vec::new();
    let ghost all = hop_views(hops@);
    let mut i: usize = from;
    while i < hops.len()
        invariant
            from <= i <= hops@.len(),
            all == hop_views(hops@),
            hop_views(r@) == all.subrange(from as int, i as int),
        decreases hops@.len() - i,
    {
        let ghost before = hop_views(r@);
        r.push(hops[i].clone());
        proof {
            assert(hop_views(r@) =~= before.push(all[i as int]));
            assert(all.subrange(from as int, i + 1) =~= all.subrange(from as int, i as int).push(
                all[i as int],
            ));
        }
        i += 1;
    }
    assert(hop_views(r@) =~= all.skip(from as int));
    r
}

/// What a node is asked to run.
#[derive(Debug)]
pub struct ComputeRequest {
    pub requester_kx_public: Vec<u8>,
    pub model_id: String,
    pub start_layer: u32,
    pub end_layer: u32,
    pub session_id: String,
    pub encrypted_activations: Vec<u8>,
    pub top_k: u32,
    pub route: Vec<Hop>,
    pub accepts_bf16: bool,
    pub encrypted_position_ids: Vec<u8>,
    pub encrypted_encoder_memory: Vec<u8>,
    pub patch_offset: u64,
    pub patch_sequence: u64,
    pub branch: String,
    pub layout: String,
    pub encrypted_arguments: Vec<u8>,
    pub draw: Draw,
}

/// What a [`ComputeRequest`] holds.
#[verifier::ext_equal]
pub struct ComputeRequestView {
    pub requester_kx_public: Seq<u8>,
    pub model_id: Seq<char>,
    pub start_layer: u32,
    pub end_layer: u32,
    pub session_id: Seq<char>,
    pub encrypted_activations: Seq<u8>,
    pub top_k: u32,
    pub route: Seq<HopView>,
    pub accepts_bf16: bool,
    pub encrypted_position_ids: Seq<u8>,
    pub encrypted_encoder_memory: Seq<u8>,
    pub patch_offset: u64,
    pub patch_sequence: u64,
    pub branch: Seq<char>,
    pub layout: Seq<char>,
    pub encrypted_arguments: Seq<u8>,
    pub draw: Draw,
}

impl View for ComputeRequest {
    type V = ComputeRequestView;

    open spec fn view(&self) -> ComputeRequestView {
        ComputeRequestView {
            requester_kx_public: self.requester_kx_public@,
            model_id: self.model_id@,
            start_layer: self.start_layer,
            end_layer: self.end_layer,
            session_id: self.session_id@,
            encrypted_activations: self.encrypted_activations@,
            top_k: self.top_k,
            route: hop_views(self.route@),
            accepts_bf16: self.accepts_bf16,
            encrypted_position_ids: self.encrypted_position_ids@,
            encrypted_encoder_memory: self.encrypted_encoder_memory@,
            patch_offset: self.patch_offset,
            patch_sequence: self.patch_sequence,
            branch: self.branch@,
            layout: self.layout@,
            encrypted_arguments: self.encrypted_arguments@,
            draw: self.draw,
        }
    }
}

/// What a node answers.
#[derive(Debug)]
pub struct ComputeResponse {
    pub encrypted_activations: Vec<u8>,
    pub ok: bool,
    pub error: String,
    pub compute_ms: u64,
    pub protocol_version: u32,
}

/// What a slice is run on: the activations, and what comes along with them
/// through every slice.
#[derive(Debug)]
pub struct SliceInput {
    pub activations: Tensor,
    pub positions: Option<Tensor>,
    pub memory: Option<Tensor>,
    pub patch: Option<Patch>,
}

/// What a [`SliceInput`] holds.
#[verifier::ext_equal]
pub struct SliceInputView {
    pub activations: crate::tensor::TensorView,
    pub positions: Option<crate::tensor::TensorView>,
    pub memory: Option<crate::tensor::TensorView>,
    pub patch: Option<PatchView>,
}

/// What an optional tensor holds.
pub open spec fn tensor_option(t: Option<Tensor>) -> Option<crate::tensor::TensorView> {
    match t {
        Some(t) => Some(t@),
        None => None,
    }
}

/// What an optional patch holds.
pub open spec fn patch_option(p: Option<Patch>) -> Option<PatchView> {
    match p {
        Some(p) => Some(p@),
        None => None,
    }
}

impl View for SliceInput {
    type V = SliceInputView;

    open spec fn view(&self) -> SliceInputView {
        SliceInputView {
            activations: self.activations@,
            positions: tensor_option(self.positions),
            memory: tensor_option(self.memory),
            patch: patch_option(self.patch),
        }
    }
}

// ---------------------------------------------------------------------------
// Asking
// ---------------------------------------------------------------------------

/// Sealed bytes carry a tensor to the holder of a secret.
pub open spec fn carries_tensor(
    secret: Seq<u8>,
    cipher: Seq<u8>,
    t: crate::tensor::TensorView,
) -> bool {
    cipher.len() > 0 && crate::transport::decryption(secret, cipher) == Ok::<
        Seq<u8>,
        TransportError,
    >(crate::tensor::tensor_bytes(t))
}

/// Sealed bytes carry a tensor where there is one; where there is none, there
/// are no bytes.
pub open spec fn carries_option(
    secret: Seq<u8>,
    cipher: Seq<u8>,
    t: Option<crate::tensor::TensorView>,
) -> bool {
    match t {
        Some(t) => carries_tensor(secret, cipher, t),
        None => cipher.len() == 0,
    }
}

/// The further tensors of a patch, where there is one.
pub open spec fn patch_arguments(p: Option<PatchView>) -> Seq<(u32, crate::tensor::TensorView)> {
    match p {
        Some(p) => p.arguments,
        None => Seq::empty(),
    }
}

/// Sealed bytes carry the further tensors of a patch where there are any; where
/// there are none, there are no bytes.
pub open spec fn carries_arguments(secret: Seq<u8>, cipher: Seq<u8>, p: Option<PatchView>) -> bool {
    let args = patch_arguments(p);
    if args.len() == 0 {
        cipher.len() == 0
    } else {
        cipher.len() > 0 && crate::transport::decryption(secret, cipher) == Ok::<
            Seq<u8>,
            TransportError,
        >(crate::tensor::arguments_bytes(args))
    }
}

/// The sealed parts of a request carry an input to the holder of a secret.
pub open spec fn carries(secret: Seq<u8>, req: ComputeRequestView, input: SliceInputView) -> bool {
    &&& carries_tensor(secret, req.encrypted_activations, input.activations)
    &&& carries_option(secret, req.encrypted_position_ids, input.positions)
    &&& carries_option(secret, req.encrypted_encoder_memory, input.memory)
    &&& carries_arguments(secret, req.encrypted_arguments, input.patch)
}

/// The open parts of a request tell the patch of an input.
pub open spec fn tells_patch(req: ComputeRequestView, p: Option<PatchView>) -> bool {
    match p {
        Some(p) => req.patch_offset == p.offset && req.patch_sequence == p.sequence && req.branch
            == p.branch && req.layout == p.layout,
        None => req.patch_offset == 0 && req.patch_sequence == 0 && req.branch.len() == 0
            && req.layout.len() == 0,
    }
}

/// Whether each part of an input is short enough to be sealed.
pub open spec fn sealable(input: SliceInputView) -> bool {
    let longest = crate::transport::longest_message();
    &&& crate::tensor::tensor_bytes(input.activations).len() <= longest
    &&& input.positions matches Some(t) ==> crate::tensor::tensor_bytes(t).len() <= longest
    &&& input.memory matches Some(t) ==> crate::tensor::tensor_bytes(t).len() <= longest
    &&& patch_arguments(input.patch).len() > 0 ==> crate::tensor::arguments_bytes(
        patch_arguments(input.patch),
    ).len() <= longest
}

/// The open parts of a request tell who asks, for which layers of which model, in which
/// session, and what should come back.
pub open spec fn asks(
    req: ComputeRequestView,
    public: Seq<u8>,
    model_id: Seq<char>,
    layers: (u32, u32),
    session_id: Seq<char>,
    top_k: u32,
    route: Seq<HopView>,
    accepts_bf16: bool,
    draw: Draw,
) -> bool {
    &&& req.requester_kx_public == public
    &&& req.model_id == model_id
    &&& req.start_layer == layers.0
    &&& req.end_layer == layers.1
    &&& req.session_id == session_id
    &&& req.top_k == top_k
    &&& req.route == route
    &&& req.accepts_bf16 == accepts_bf16
    &&& req.draw == draw
}

fn seal_tensor(secret: &[u8; 32], t: &Tensor) -> (r: Result<Vec<u8>, TransportError>)
    ensures
        match r {
            Ok(c) => carries_tensor(secret@, c@, t@) && crate::tensor::tensor_bytes(t@).len()
                <= crate::transport::longest_message(),
            Err(e) => e == TransportError::TooLong && crate::tensor::tensor_bytes(t@).len()
                > crate::transport::longest_message(),
        },
{
    encrypt(secret, tensor_to_bytes(t).as_slice())
}

fn seal_option(secret: &[u8; 32], t: &Option<Tensor>) -> (r: Result<Vec<u8>, TransportError>)
    ensures
        match r {
            Ok(c) => carries_option(secret@, c@, tensor_option(*t)) && (*t matches Some(t)
                ==> crate::tensor::tensor_bytes(t@).len() <= crate::transport::longest_message()),
            Err(e) => e == TransportError::TooLong && (*t matches Some(t)
                && crate::tensor::tensor_bytes(t@).len() > crate::transport::longest_message()),
        },
{
    match t {
        Some(t) => seal_tensor(secret, t),
        None => Ok(Vec::new()),
    }
}

fn seal_arguments(secret: &[u8; 32], patch: &Option<Patch>) -> (r: Result<Vec<u8>, TransportError>)
    ensures
        match r {
            Ok(c) => carries_arguments(secret@, c@, patch_option(*patch)) && (patch_arguments(
                patch_option(*patch),
            ).len() > 0 ==> crate::tensor::arguments_bytes(
                patch_arguments(patch_option(*patch)),
            ).len() <= crate::transport::longest_message()),
            Err(e) => e == TransportError::TooLong && patch_arguments(patch_option(*patch)).len()
                > 0 && crate::tensor::arguments_bytes(
                patch_arguments(patch_option(*patch)),
            ).len() > crate::transport::longest_message(),
        },
{
    match patch {
        Some(p) => {
            if p.arguments.len() > 0 {
                encrypt(secret, arguments_to_bytes(p.arguments.as_slice()).as_slice())
            } else {
                Ok(Vec::new())
            }
        },
        None => Ok(Vec::new()),
    }
}

/// The sealed parts of a request.
struct Sealed {
    activations: Vec<u8>,
    positions: Vec<u8>,
    memory: Vec<u8>,
    arguments: Vec<u8>,
}

impl Sealed {
    spec fn carry(&self, secret: Seq<u8>, input: SliceInputView) -> bool {
        &&& carries_tensor(secret, self.activations@, input.activations)
        &&& carries_option(secret, self.positions@, input.positions)
        &&& carries_option(secret, self.memory@, input.memory)
        &&& carries_arguments(secret, self.arguments@, input.patch)
    }
}

fn seal_input(
    secret: &[u8; 32],
    activations: &Tensor,
    positions: &Option<Tensor>,
    memory: &Option<Tensor>,
    patch: &Option<Patch>,
) -> (r: Result<Sealed, TransportError>)
    ensures
        ({
            let input = SliceInputView {
                activations: activations@,
                positions: tensor_option(*positions),
                memory: tensor_option(*memory),
                patch: patch_option(*patch),
            };
            match r {
                Ok(s) => sealable(input) && s.carry(secret@, input),
                Err(e) => !sealable(input) && e == TransportError::TooLong,
            }
        }),
{
    let activations: Vec<u8> = match seal_tensor(secret, activations) {
        Ok(c) => c,
        Err(e) => {
            return Err(e);
        },
    };
    let positions: Vec<u8> = match seal_option(secret, positions) {
        Ok(c) => c,
        Err(e) => {
            return Err(e);
        },
    };
    let memory: Vec<u8> = match seal_option(secret, memory) {
        Ok(c) => c,
        Err(e) => {
            return Err(e);
        },
    };
    let arguments: Vec<u8> = match seal_arguments(secret, patch) {
        Ok(c) => c,
        Err(e) => {
            return Err(e);
        },
    };
    Ok(Sealed { activations, positions, memory, arguments })
}

/// The request by which a client asks a node to run one slice, and the slices
/// of `route` after it. The owner of the node's public key can open it. It fails
/// exactly where a part is too long to be sealed.
pub fn seal_request(
    my_kx: &KeyExchange,
    host_kx_public: &[u8; 32],
    model_id: &str,
    start: u32,
    end: u32,
    session_id: &str,
    input: &SliceInput,
    top_k: u32,
    route: Vec<Hop>,
    accepts_bf16: bool,
    draw: Draw,
) -> (r: Result<ComputeRequest, TransportError>)
    ensures
        match r {
            Ok(req) => {
                &&& sealable(input@)
                &&& carries(
                    crate::transport::x25519_shared(my_kx.secret(), host_kx_public@),
                    req@,
                    input@,
                )
                &&& forall|host: Seq<u8>|
                    host.len() == 32 && host_kx_public@ == #[trigger] crate::transport::x25519_public(
                        host,
                    ) ==> carries(
                        crate::transport::x25519_shared(host, my_kx.public()),
                        req@,
                        input@,
                    )
                &&& tells_patch(req@, input@.patch)
                &&& asks(
                    req@,
                    my_kx.public(),
                    model_id@,
                    (start, end),
                    session_id@,
                    top_k,
                    hop_views(route@),
                    accepts_bf16,
                    draw,
                )
            },
            Err(e) => !sealable(input@) && e == TransportError::TooLong,
        },
{
    let secret = my_kx.shared_secret(host_kx_public);
    let sealed: Sealed = match seal_input(
        &secret,
        &input.activations,
        &input.positions,
        &input.memory,
        &input.patch,
    ) {
        Ok(s) => s,
        Err(e) => {
            return Err(e);
        },
    };
    let (patch_offset, patch_sequence, branch, layout) = match &input.patch {
        Some(p) => (p.offset, p.sequence, p.branch.clone(), p.layout.clone()),
        None => (0, 0, String::new(), String::new()),
    };
    let public = my_kx.public_bytes();
    Ok(
        ComputeRequest {
            requester_kx_public: text::copy_bytes(public.as_slice()),
            model_id: model_id.to_string(),
            start_layer: start,
            end_layer: end,
            session_id: session_id.to_string(),
            encrypted_activations: sealed.activations,
            top_k,
            route,
            accepts_bf16,
            encrypted_position_ids: sealed.positions,
            encrypted_encoder_memory: sealed.memory,
            patch_offset,
            patch_sequence,
            branch,
            layout,
            encrypted_arguments: sealed.arguments,
            draw,
        },
    )
}

// ---------------------------------------------------------------------------
// Being asked
// ---------------------------------------------------------------------------

/// Why a request cannot be run.
#[derive(Debug, Clone, Copy, PartialEq, Eq, Structural)]
pub enum ComputeError {
    /// The requester's public key is not one.
    BadKey,
    /// A sealed part does not open.
    Transport(TransportError),
    /// A part opens, and holds no tensor.
    Codec(CodecError),
}

impl ComputeError {
    /// What is wrong, in words.
    pub open spec fn text(self) -> Seq<char> {
        match self {
            ComputeError::BadKey => "bad kx public key"@,
            ComputeError::Transport(e) => e.text(),
            ComputeError::Codec(e) => e.text(),
        }
    }

    /// What is wrong, in words.
    pub fn message(&self) -> (s: String)
        ensures
            s@ == self.text(),
    {
        match self {
            ComputeError::BadKey => "bad kx public key".to_string(),
            ComputeError::Transport(e) => e.message(),
            ComputeError::Codec(e) => e.message(),
        }
    }
}

/// The tensor that sealed bytes carry to the holder of a secret.
pub open spec fn open_tensor(secret: Seq<u8>, cipher: Seq<u8>) -> Result<
    crate::tensor::TensorView,
    ComputeError,
> {
    match crate::transport::decryption(secret, cipher) {
        Err(e) => Err(ComputeError::Transport(e)),
        Ok(plain) => match crate::tensor::read_tensor(plain) {
            Err(e) => Err(ComputeError::Codec(e)),
            Ok(t) => Ok(t),
        },
    }
}

/// The tensor that sealed bytes carry, where there are bytes.
pub open spec fn open_option(secret: Seq<u8>, cipher: Seq<u8>) -> Result<
    Option<crate::tensor::TensorView>,
    ComputeError,
> {
    if cipher.len() == 0 {
        Ok(None)
    } else {
        match open_tensor(secret, cipher) {
            Err(e) => Err(e),
            Ok(t) => Ok(Some(t)),
        }
    }
}

/// The further tensors that sealed bytes carry; no bytes carry none.
pub open spec fn open_arguments(secret: Seq<u8>, cipher: Seq<u8>) -> Result<
    Seq<(u32, crate::tensor::TensorView)>,
    ComputeError,
> {
    if cipher.len() == 0 {
        Ok(Seq::empty())
    } else {
        match crate::transport::decryption(secret, cipher) {
            Err(e) => Err(ComputeError::Transport(e)),
            Ok(plain) => match crate::tensor::read_arguments(plain) {
                Err(e) => Err(ComputeError::Codec(e)),
                Ok(args) => Ok(args),
            },
        }
    }
}

/// The patch that a request tells of: none where the sequence is empty.
pub open spec fn open_patch(secret: Seq<u8>, req: ComputeRequestView) -> Result<
    Option<PatchView>,
    ComputeError,
> {
    if req.patch_sequence == 0 {
        Ok(None)
    } else {
        match open_arguments(secret, req.encrypted_arguments) {
            Err(e) => Err(e),
            Ok(arguments) => Ok(
                Some(
                    PatchView {
                        offset: req.patch_offset,
                        sequence: req.patch_sequence,
                        branch: req.branch,
                        layout: req.layout,
                        arguments,
                    },
                ),
            ),
        }
    }
}

/// The input that a request carries to the holder of a secret. Its parts are
/// opened in order, and the first that does not open decides.
pub open spec fn open_input(secret: Seq<u8>, req: ComputeRequestView) -> Result<
    SliceInputView,
    ComputeError,
> {
    match open_tensor(secret, req.encrypted_activations) {
        Err(e) => Err(e),
        Ok(activations) => match open_option(secret, req.encrypted_position_ids) {
            Err(e) => Err(e),
            Ok(positions) => match open_option(secret, req.encrypted_encoder_memory) {
                Err(e) => Err(e),
                Ok(memory) => match open_patch(secret, req) {
                    Err(e) => Err(e),
                    Ok(patch) => Ok(SliceInputView { activations, positions, memory, patch }),
                },
            },
        },
    }
}

fn decode_tensor(secret: &[u8; 32], payload: &[u8]) -> (r: Result<Tensor, ComputeError>)
    ensures
        match r {
            Ok(t) => open_tensor(secret@, payload@) == Ok::<
                crate::tensor::TensorView,
                ComputeError,
            >(t@),
            Err(e) => open_tensor(secret@, payload@) == Err::<
                crate::tensor::TensorView,
                ComputeError,
            >(e),
        },
{
    match decrypt(secret, payload) {
        Ok(plain) => match tensor_from_bytes(plain.as_slice()) {
            Ok(t) => Ok(t),
            Err(e) => Err(ComputeError::Codec(e)),
        },
        Err(e) => Err(ComputeError::Transport(e)),
    }
}

/// The tensor that sealed bytes carry, where there are bytes.
pub fn decode_positions(secret: &[u8; 32], payload: &[u8]) -> (r: Result<
    Option<Tensor>,
    ComputeError,
>)
    ensures
        match r {
            Ok(t) => open_option(secret@, payload@) == Ok::<
                Option<crate::tensor::TensorView>,
                ComputeError,
            >(tensor_option(t)),
            Err(e) => open_option(secret@, payload@) == Err::<
                Option<crate::tensor::TensorView>,
                ComputeError,
            >(e),
        },
{
    if payload.len() == 0 {
        return Ok(None);
    }
    match decode_tensor(secret, payload) {
        Ok(t) => Ok(Some(t)),
        Err(e) => Err(e),
    }
}

fn decode_arguments(secret: &[u8; 32], payload: &[u8]) -> (r: Result<
    Vec<(u32, Tensor)>,
    ComputeError,
>)
    ensures
        match r {
            Ok(v) => open_arguments(secret@, payload@) == Ok::<
                Seq<(u32, crate::tensor::TensorView)>,
                ComputeError,
            >(crate::tensor::argument_views(v@)),
            Err(e) => open_arguments(secret@, payload@) == Err::<
                Seq<(u32, crate::tensor::TensorView)>,
                ComputeError,
            >(e),
        },
{
    if payload.len() == 0 {
        let none: Vec<(u32, Tensor)> = Vec::new();
        assert(crate::tensor::argument_views(none@) =~= Seq::<
            (u32, crate::tensor::TensorView),
        >::empty());
        return Ok(none);
    }
    match decrypt(secret, payload) {
        Ok(plain) => match arguments_from_bytes(plain.as_slice()) {
            Ok(v) => Ok(v),
            Err(e) => Err(ComputeError::Codec(e)),
        },
        Err(e) => Err(ComputeError::Transport(e)),
    }
}

/// The patch that a request tells of.
pub fn decode_patch(secret: &[u8; 32], req: &ComputeRequest) -> (r: Result<
    Option<Patch>,
    ComputeError,
>)
    ensures
        match r {
            Ok(p) => open_patch(secret@, req@) == Ok::<Option<PatchView>, ComputeError>(
                patch_option(p),
            ),
            Err(e) => open_patch(secret@, req@) == Err::<Option<PatchView>, ComputeError>(e),
        },
{
    if req.patch_sequence == 0 {
        return Ok(None);
    }
    match decode_arguments(secret, req.encrypted_arguments.as_slice()) {
        Ok(arguments) => {
            let p = Patch {
                offset: req.patch_offset,
                sequence: req.patch_sequence,
                branch: req.branch.clone(),
                layout: req.layout.clone(),
                arguments,
            };
            Ok(Some(p))
        },
        Err(e) => Err(e),
    }
}

/// What a request carries to the holder of a secret.
pub fn open_with_secret(secret: &[u8; 32], req: &ComputeRequest) -> (r: Result<
    SliceInput,
    ComputeError,
>)
    ensures
        match r {
            Ok(input) => open_input(secret@, req@) == Ok::<SliceInputView, ComputeError>(input@),
            Err(e) => open_input(secret@, req@) == Err::<SliceInputView, ComputeError>(e),
        },
{
    let activations: Tensor = match decode_tensor(secret, req.encrypted_activations.as_slice()) {
        Ok(t) => t,
        Err(e) => {
            return Err(e);
        },
    };
    let positions: Option<Tensor> = match decode_positions(
        secret,
        req.encrypted_position_ids.as_slice(),
    ) {
        Ok(t) => t,
        Err(e) => {
            return Err(e);
        },
    };
    let memory: Option<Tensor> = match decode_positions(
        secret,
        req.encrypted_encoder_memory.as_slice(),
    ) {
        Ok(t) => t,
        Err(e) => {
            return Err(e);
        },
    };
    let patch: Option<Patch> = match decode_patch(secret, req) {
        Ok(p) => p,
        Err(e) => {
            return Err(e);
        },
    };
    Ok(SliceInput { activations, positions, memory, patch })
}

/// A request that was opened: the secret shared with the requester, and the input.
pub struct OpenedRequest {
    pub secret: [u8; 32],
    pub input: SliceInput,
}

/// Opens a request with the key of the node that was asked.
pub fn open_request(identity_kx: &KeyExchange, req: &ComputeRequest) -> (r: Result<
    OpenedRequest,
    ComputeError,
>)
    ensures
        ({
            let secret = crate::transport::x25519_shared(
                identity_kx.secret(),
                req@.requester_kx_public,
            );
            match r {
                Ok(o) => req@.requester_kx_public.len() == 32 && o.secret@ == secret && open_input(
                    secret,
                    req@,
                ) == Ok::<SliceInputView, ComputeError>(o.input@),
                Err(e) => if req@.requester_kx_public.len() != 32 {
                    e == ComputeError::BadKey
                } else {
                    open_input(secret, req@) == Err::<SliceInputView, ComputeError>(e)
                },
            }
        }),
{
    let peer_kx = match array_of_32(req.requester_kx_public.as_slice()) {
        Some(k) => k,
        None => {
            return Err(ComputeError::BadKey);
        },
    };
    let secret = identity_kx.shared_secret(&peer_kx);
    match open_with_secret(&secret, req) {
        Ok(input) => Ok(OpenedRequest { secret, input }),
        Err(e) => Err(e),
    }
}

/// A good answer carries these bytes to the holder of a secret.
pub open spec fn answers(secret: Seq<u8>, resp: ComputeResponse, plain: Seq<u8>, ms: u64) -> bool {
    &&& resp.ok
    &&& resp.error@.len() == 0
    &&& resp.compute_ms == ms
    &&& resp.protocol_version == WIRE_VERSION
    &&& crate::transport::decryption(secret, resp.encrypted_activations@) == Ok::<
        Seq<u8>,
        TransportError,
    >(plain)
}

fn answer(secret: &[u8; 32], plain: &[u8], compute_ms: u64) -> (r: Result<
    ComputeResponse,
    TransportError,
>)
    ensures
        match r {
            Ok(resp) => plain@.len() <= crate::transport::longest_message() && answers(
                secret@,
                resp,
                plain@,
                compute_ms,
            ),
            Err(e) => plain@.len() > crate::transport::longest_message() && e
                == TransportError::TooLong,
        },
{
    match encrypt(secret, plain) {
        Ok(c) => Ok(
            ComputeResponse {
                encrypted_activations: c,
                ok: true,
                error: String::new(),
                compute_ms,
                protocol_version: WIRE_VERSION,
            },
        ),
        Err(e) => Err(e),
    }
}

/// The answer with the output of a slice. It fails exactly where the output is
/// too long to be sealed.
pub fn seal_response(secret: &[u8; 32], out: &Tensor, compute_ms: u64) -> (r: Result<
    ComputeResponse,
    TransportError,
>)
    ensures
        match r {
            Ok(resp) => answers(
                secret@,
                resp,
                crate::tensor::tensor_bytes(out@),
                compute_ms,
            ) && crate::tensor::tensor_bytes(out@).len() <= crate::transport::longest_message(),
            Err(e) => crate::tensor::tensor_bytes(out@).len() > crate::transport::longest_message()
                && e == TransportError::TooLong,
        },
{
    answer(secret, tensor_to_bytes(out).as_slice(), compute_ms)
}

/// The answer of a node that could not run what it was asked.
pub fn refuse(error: String) -> (r: ComputeResponse)
    ensures
        !r.ok,
        r.error@ == error@,
        r.encrypted_activations@.len() == 0,
        r.compute_ms == 0,
        r.protocol_version == WIRE_VERSION,
{
    ComputeResponse {
        encrypted_activations: Vec::new(),
        ok: false,
        error,
        compute_ms: 0,
        protocol_version: WIRE_VERSION,
    }
}

// ---------------------------------------------------------------------------
// Reading the answer
// ---------------------------------------------------------------------------

/// Why an answer holds no output.
#[derive(Debug, Clone, Copy, PartialEq, Eq, Structural)]
pub enum ResponseFault {
    /// The node says that it failed.
    Failed,
    /// The sealed output does not open, or holds no tensor.
    Unreadable(ComputeError),
}

/// The output that an answer carries to the holder of a secret.
pub open spec fn read_response(secret: Seq<u8>, resp: ComputeResponse) -> Result<
    crate::tensor::TensorView,
    ResponseFault,
> {
    if !resp.ok {
        Err(ResponseFault::Failed)
    } else {
        match open_tensor(secret, resp.encrypted_activations@) {
            Err(e) => Err(ResponseFault::Unreadable(e)),
            Ok(t) => Ok(t),
        }
    }
}

/// The output that an answer carries, how long it took to compute, and the
/// version of the wire format that the node speaks.
pub fn open_response(secret: &[u8; 32], resp: &ComputeResponse) -> (r: Result<
    (Tensor, u64, u32),
    ResponseFault,
>)
    ensures
        match r {
            Ok((t, ms, version)) => read_response(secret@, *resp) == Ok::<
                crate::tensor::TensorView,
                ResponseFault,
            >(t@) && ms == resp.compute_ms && version == resp.protocol_version,
            Err(e) => read_response(secret@, *resp) == Err::<
                crate::tensor::TensorView,
                ResponseFault,
            >(e),
        },
{
    if !resp.ok {
        return Err(ResponseFault::Failed);
    }
    match decode_tensor(secret, resp.encrypted_activations.as_slice()) {
        Ok(t) => Ok((t, resp.compute_ms, resp.protocol_version)),
        Err(e) => Err(ResponseFault::Unreadable(e)),
    }
}

impl ResponseFault {
    /// What went wrong, in words; `way` says how the node was asked.
    pub open spec fn text(self, way: Seq<char>, resp: ComputeResponse) -> Seq<char> {
        match self {
            ResponseFault::Failed => way + " compute failed: "@ + resp.error@,
            ResponseFault::Unreadable(e) => e.text(),
        }
    }

    /// What went wrong, in words; `way` says how the node was asked.
    pub fn message(&self, way: &str, resp: &ComputeResponse) -> (s: String)
        ensures
            s@ == self.text(way@, *resp),
    {
        match self {
            ResponseFault::Failed => {
                let mut s: String = way.to_string();
                s.append(" compute failed: ");
                s.append(resp.error.as_str());
                s
            },
            ResponseFault::Unreadable(e) => e.message(),
        }
    }
}

// ---------------------------------------------------------------------------
// Handing on
// ---------------------------------------------------------------------------

/// Why a node of a chain cannot hand its output on, or answer.
#[derive(Debug, Clone, Copy, PartialEq, Eq, Structural)]
pub enum ChainError {
    /// The public key of the next hop is not one.
    BadHopKey,
    /// A part is too long to be sealed, or the next hop's answer does not open.
    Transport(TransportError),
}

impl ChainError {
    /// What went wrong, in words; `endpoint` is the next hop.
    pub open spec fn text(self, endpoint: Seq<char>) -> Seq<char> {
        match self {
            ChainError::BadHopKey => "hop "@ + endpoint + " has a bad kx public key"@,
            ChainError::Transport(e) => e.text(),
        }
    }

    /// What went wrong, in words; `endpoint` is the next hop.
    pub fn message(&self, endpoint: &str) -> (s: String)
        ensures
            s@ == self.text(endpoint@),
    {
        match self {
            ChainError::BadHopKey => {
                let mut s: String = "hop ".to_string();
                s.append(endpoint);
                s.append(" has a bad kx public key");
                s
            },
            ChainError::Transport(e) => e.message(),
        }
    }
}

/// What a node of a chain hands on: where to, under which secret, and what.
pub struct Forward {
    pub endpoint: String,
    pub secret: [u8; 32],
    pub request: ComputeRequest,
}

/// What a node of a chain does with its output: it answers where it is the last
/// of the chain, and else hands the output on.
pub enum ChainStep {
    Answer(ComputeResponse),
    Forward(Forward),
}

/// What comes along with the activations, and the activations that a slice made.
pub open spec fn next_input(input: SliceInputView, out: crate::tensor::TensorView) -> SliceInputView {
    SliceInputView { activations: out, ..input }
}

/// The request that a node hands on for the next hop of the route.
pub open spec fn hands_on(
    next: ComputeRequestView,
    req: ComputeRequestView,
    public: Seq<u8>,
) -> bool {
    let hop = req.route[0];
    &&& next.requester_kx_public == public
    &&& next.model_id == req.model_id
    &&& next.session_id == req.session_id
    &&& next.start_layer == hop.start_layer
    &&& next.end_layer == hop.end_layer
    &&& next.top_k == hop.top_k
    &&& next.route == req.route.skip(1)
    &&& next.accepts_bf16 == (req.route.len() > 1 && req.route[1].accepts_bf16)
    &&& next.patch_offset == req.patch_offset
    &&& next.patch_sequence == req.patch_sequence
    &&& next.branch == req.branch
    &&& next.layout == req.layout
    &&& next.draw == req.draw
}

/// What a node with a secret key does with the output of its slice, which stands in `input`
/// with all that came along.
pub open spec fn goes_on(
    mine: Seq<u8>,
    req: ComputeRequestView,
    secret: Seq<u8>,
    input: SliceInputView,
    compute_ms: u64,
    r: Result<ChainStep, ChainError>,
) -> bool {
    let longest = crate::transport::longest_message();
    let bytes = crate::tensor::tensor_bytes(input.activations);
    let hop = req.route[0];
    let public = crate::transport::x25519_public(mine);
    match r {
        Ok(ChainStep::Answer(resp)) => req.route.len() == 0 && bytes.len() <= longest && answers(
            secret,
            resp,
            bytes,
            compute_ms,
        ),
        Ok(ChainStep::Forward(f)) => {
            &&& req.route.len() > 0
            &&& hop.kx_public.len() == 32
            &&& sealable(input)
            &&& f.endpoint@ == hop.compute_endpoint
            &&& f.secret@ == crate::transport::x25519_shared(mine, hop.kx_public)
            &&& hands_on(f.request@, req, public)
            &&& carries(f.secret@, f.request@, input)
            &&& forall|next: Seq<u8>|
                next.len() == 32 && hop.kx_public == #[trigger] crate::transport::x25519_public(
                    next,
                ) ==> carries(
                    crate::transport::x25519_shared(next, public),
                    f.request@,
                    input,
                )
        },
        Err(e) => if req.route.len() == 0 {
            bytes.len() > longest && e == ChainError::Transport(TransportError::TooLong)
        } else if hop.kx_public.len() != 32 {
            e == ChainError::BadHopKey
        } else {
            !sealable(input) && e == ChainError::Transport(TransportError::TooLong)
        },
    }
}

/// What a node does with the output of its slice. Where the route is at its
/// end, it answers the requester; else it asks the next hop, under a secret of
/// its own with that hop, and passes along all that came with the activations.
pub fn after_slice(
    identity_kx: &KeyExchange,
    req: &ComputeRequest,
    opened: &OpenedRequest,
    out: &Tensor,
    compute_ms: u64,
) -> (r: Result<ChainStep, ChainError>)
    ensures
        goes_on(
            identity_kx.secret(),
            req@,
            opened.secret@,
            next_input(opened.input@, out@),
            compute_ms,
            r,
        ),
{
    if req.route.len() == 0 {
        return match seal_response(&opened.secret, out, compute_ms) {
            Ok(resp) => Ok(ChainStep::Answer(resp)),
            Err(e) => Err(ChainError::Transport(e)),
        };
    }
    let hop: &Hop = &req.route[0];
    assert(req@.route[0] == hop@);
    let next_kx = match array_of_32(hop.kx_public.as_slice()) {
        Some(k) => k,
        None => {
            return Err(ChainError::BadHopKey);
        },
    };
    let secret = identity_kx.shared_secret(&next_kx);
    let sealed: Sealed = match seal_input(
        &secret,
        out,
        &opened.input.positions,
        &opened.input.memory,
        &opened.input.patch,
    ) {
        Ok(s) => s,
        Err(e) => {
            return Err(ChainError::Transport(e));
        },
    };
    let accepts_bf16: bool = if req.route.len() > 1 {
        assert(req@.route[1] == req.route@[1]@);
        req.route[1].accepts_bf16
    } else {
        false
    };
    let public = identity_kx.public_bytes();
    let request = ComputeRequest {
        requester_kx_public: text::copy_bytes(public.as_slice()),
        model_id: req.model_id.clone(),
        start_layer: hop.start_layer,
        end_layer: hop.end_layer,
        session_id: req.session_id.clone(),
        encrypted_activations: sealed.activations,
        top_k: hop.top_k,
        route: hops_from(&req.route, 1),
        accepts_bf16,
        encrypted_position_ids: sealed.positions,
        encrypted_encoder_memory: sealed.memory,
        patch_offset: req.patch_offset,
        patch_sequence: req.patch_sequence,
        branch: req.branch.clone(),
        layout: req.layout.clone(),
        encrypted_arguments: sealed.arguments,
        draw: req.draw,
    };
    Ok(ChainStep::Forward(Forward { endpoint: hop.compute_endpoint.clone(), secret, request }))
}

/// How a node says that the chain stands still at the next hop.
pub open spec fn stalled_text(endpoint: Seq<char>, cause: Seq<char>) -> Seq<char> {
    "chain stalled at ["@ + endpoint + "]: "@ + cause
}

/// Says that the chain stands still at the next hop.
pub fn stalled(endpoint: &str, cause: &str) -> (s: String)
    ensures
        s@ == stalled_text(endpoint@, cause@),
{
    let mut s: String = "chain stalled at [".to_string();
    s.append(endpoint);
    s.append("]: ");
    s.append(cause);
    s
}

/// What a node that handed its output on makes of the answer of the next hop.
pub open spec fn goes_back(
    secret: Seq<u8>,
    next_secret: Seq<u8>,
    endpoint: Seq<char>,
    downstream: Result<ComputeResponse, String>,
    compute_ms: u64,
    r: Result<ComputeResponse, String>,
) -> bool {
    match downstream {
        Err(cause) => r matches Err(text) && text@ == stalled_text(endpoint, cause@),
        Ok(d) => if !d.ok {
            r matches Err(text) && text@ == stalled_text(endpoint, d.error@)
        } else {
            match crate::transport::decryption(next_secret, d.encrypted_activations@) {
                Err(e) => r matches Err(text) && text@ == e.text(),
                Ok(plain) => r matches Ok(resp) && answers(
                    secret,
                    resp,
                    plain,
                    (compute_ms + d.compute_ms) as u64,
                ),
            }
        },
    }
}

/// The answer of a node that handed its output on, from the answer of the next
/// hop: the same output, sealed for the requester, with both times added up. A
/// hop that cannot be asked, or fails, is named.
pub fn finish_chain(
    secret: &[u8; 32],
    next_secret: &[u8; 32],
    endpoint: &str,
    downstream: &Result<ComputeResponse, String>,
    compute_ms: u64,
) -> (r: Result<ComputeResponse, String>)
    requires
        downstream matches Ok(d) ==> d.ok ==> compute_ms + d.compute_ms <= u64::MAX,
    ensures
        goes_back(secret@, next_secret@, endpoint@, *downstream, compute_ms, r),
{
    match downstream {
        Err(cause) => Err(stalled(endpoint, cause.as_str())),
        Ok(d) => {
            if !d.ok {
                return Err(stalled(endpoint, d.error.as_str()));
            }
            let total: u64 = compute_ms + d.compute_ms;
            match decrypt(next_secret, d.encrypted_activations.as_slice()) {
                Err(e) => Err(e.message()),
                Ok(plain) => {
                    match answer(secret, plain.as_slice(), total) {
                        Ok(resp) => Ok(resp),
                        Err(e) => Err(e.message()),
                    }
                },
            }
        },
    }
}

/// Whether `i` is the first place of `p` in `s`.
pub open spec fn first_at(s: Seq<char>, p: Seq<char>, i: int) -> bool {
    text::occurs_at(s, p, i) && forall|k: int| 0 <= k < i ==> !text::occurs_at(s, p, k)
}

/// The endpoint that a text names as the one at which a chain stands still: what
/// stands behind the first mark, up to the first closing bracket.
pub open spec fn names_stalled(s: Seq<char>, endpoint: Seq<char>) -> bool {
    exists|i: int, j: int|
        {
            &&& #[trigger] first_at(s, "chain stalled at ["@, i)
            &&& #[trigger] first_at(s.skip(i + "chain stalled at ["@.len()), "]"@, j)
            &&& endpoint == s.skip(i + "chain stalled at ["@.len()).take(j)
        }
}

/// The endpoint that a text names as the one at which a chain stands still.
pub fn stalled_endpoint(message: &str) -> (r: Option<String>)
    ensures
        match r {
            Some(endpoint) => names_stalled(message@, endpoint@),
            None => forall|endpoint: Seq<char>| !names_stalled(message@, endpoint),
        },
{
    let s: Vec<char> = text::chars_of(message);
    let mark: Vec<char> = text::chars_of("chain stalled at [");
    let close: Vec<char> = text::chars_of("]");
    let i: usize = match text::find(&s, &mark) {
        Some(i) => i,
        None => {
            return None;
        },
    };
    assert(first_at(s@, mark@, i as int));
    proof {
        assert forall|other: int| #[trigger] first_at(s@, mark@, other) implies other == i by {
            if other < i {
                assert(!text::occurs_at(s@, mark@, other));
            }
        }
    }
    assert(i + mark@.len() <= s.len());
    let from: usize = i + mark.len();
    let rest: Vec<char> = text::chars_of(text::slice_of(&s, from, s.len()).as_str());
    assert(rest@ =~= s@.skip(i + mark@.len()));
    match text::find(&rest, &close) {
        Some(j) => {
            assert(first_at(rest@, close@, j as int));
            let endpoint: String = text::slice_of(&rest, 0, j);
            assert(endpoint@ =~= rest@.take(j as int));
            Some(endpoint)
        },
        None => None,
    }
}

// ---------------------------------------------------------------------------
// Laws
// ---------------------------------------------------------------------------

/// Whether the bytes of an input can be read back: each count fits in the
/// bytes that it is given, and a patch has a sequence.
pub open spec fn readable(input: SliceInputView) -> bool {
    &&& crate::tensor::writable(input.activations)
    &&& input.positions matches Some(t) ==> crate::tensor::writable(t)
    &&& input.memory matches Some(t) ==> crate::tensor::writable(t)
    &&& input.patch matches Some(p) ==> p.sequence > 0 && crate::tensor::all_writable(p.arguments)
}

/// What a request carries to the holder of a secret is what that holder finds
/// when it opens the request.
pub proof fn what_is_carried_is_found(secret: Seq<u8>, req: ComputeRequestView, input: SliceInputView)
    requires
        carries(secret, req, input),
        tells_patch(req, input.patch),
        readable(input),
    ensures
        open_input(secret, req) == Ok::<SliceInputView, ComputeError>(input),
{
    crate::tensor::a_written_tensor_reads_back(input.activations);
    if let Some(t) = input.positions {
        crate::tensor::a_written_tensor_reads_back(t);
    }
    if let Some(t) = input.memory {
        crate::tensor::a_written_tensor_reads_back(t);
    }
    if let Some(p) = input.patch {
        if p.arguments.len() > 0 {
            crate::tensor::written_arguments_read_back(p.arguments);
        } else {
            assert(p.arguments =~= Seq::<(u32, crate::tensor::TensorView)>::empty());
        }
    }
}

/// What a node of a chain hands on is what the next hop finds: the output of the
/// slice, and with it all that came along with the activations.
pub proof fn what_is_handed_on_is_found(
    secret: Seq<u8>,
    req: ComputeRequestView,
    input: SliceInputView,
    next_secret: Seq<u8>,
    next: ComputeRequestView,
    public: Seq<u8>,
    out: crate::tensor::TensorView,
)
    requires
        open_input(secret, req) == Ok::<SliceInputView, ComputeError>(input),
        hands_on(next, req, public),
        carries(next_secret, next, next_input(input, out)),
        readable(next_input(input, out)),
    ensures
        open_input(next_secret, next) == Ok::<SliceInputView, ComputeError>(
            next_input(input, out),
        ),
        next_input(input, out).activations == out,
        next_input(input, out).positions == input.positions,
        next_input(input, out).memory == input.memory,
        next_input(input, out).patch == input.patch,
{
    crate::tensor::a_written_tensor_reads_back(out);
    if let Some(t) = input.positions {
        crate::tensor::a_written_tensor_reads_back(t);
    }
    if let Some(t) = input.memory {
        crate::tensor::a_written_tensor_reads_back(t);
    }
    if let Some(p) = input.patch {
        if p.arguments.len() > 0 {
            crate::tensor::written_arguments_read_back(p.arguments);
        } else {
            assert(p.arguments =~= Seq::<(u32, crate::tensor::TensorView)>::empty());
        }
    }
}

/// What a node answers with is what the requester reads.
pub proof fn what_is_answered_is_read(
    secret: Seq<u8>,
    resp: ComputeResponse,
    out: crate::tensor::TensorView,
    ms: u64,
)
    requires
        answers(secret, resp, crate::tensor::tensor_bytes(out), ms),
        crate::tensor::writable(out),
    ensures
        read_response(secret, resp) == Ok::<crate::tensor::TensorView, ResponseFault>(out),
{
    crate::tensor::a_written_tensor_reads_back(out);
}

/// The hop at which a chain stands still is found again in the text that names
/// it, behind any text that does not name one itself. (An endpoint holds no
/// closing bracket.)
pub proof fn a_stalled_hop_is_found_again(
    before: Seq<char>,
    endpoint: Seq<char>,
    cause: Seq<char>,
)
    requires
        forall|i: int| 0 <= i < endpoint.len() ==> #[trigger] endpoint[i] != ']',
        forall|i: int|
            0 <= i < before.len() ==> !text::occurs_at(
                before + stalled_text(endpoint, cause),
                "chain stalled at ["@,
                i,
            ),
    ensures
        names_stalled(before + stalled_text(endpoint, cause), endpoint),
        forall|other: Seq<char>|
            names_stalled(before + stalled_text(endpoint, cause), other) ==> other == endpoint,
{
    let mark = "chain stalled at ["@;
    let s = before + stalled_text(endpoint, cause);
    let i = before.len() as int;
    reveal_strlit("]");
    reveal_strlit("]: ");
    assert(s.subrange(i, i + mark.len()) =~= mark);
    assert(first_at(s, mark, i));
    let rest = s.skip(i + mark.len());
    let j = endpoint.len() as int;
    assert(rest =~= endpoint + "]: "@ + cause);
    assert(rest.subrange(j, j + 1) =~= "]"@);
    assert forall|k: int| 0 <= k < j implies !text::occurs_at(rest, "]"@, k) by {
        assert(rest.subrange(k, k + 1)[0] == endpoint[k]);
    }
    assert(first_at(rest, "]"@, j));
    assert(rest.take(j) =~= endpoint);
    assert forall|other: Seq<char>| names_stalled(s, other) implies other == endpoint by {
        let (a, b) = choose|a: int, b: int|
            {
                &&& #[trigger] first_at(s, mark, a)
                &&& #[trigger] first_at(s.skip(a + mark.len()), "]"@, b)
                &&& other == s.skip(a + mark.len()).take(b)
            };
        if a < i {
            assert(!text::occurs_at(s, mark, a));
        } else if i < a {
            assert(!text::occurs_at(s, mark, i));
        }
        if b < j {
            assert(!text::occurs_at(rest, "]"@, b));
        } else if j < b {
            assert(!text::occurs_at(rest, "]"@, j));
        }
    }
}

/// Requests that nodes of a chain hand on, each made from the one before, and the
/// public keys of the nodes that made them.
pub open spec fn handed_down(rs: Seq<ComputeRequestView>, publics: Seq<Seq<u8>>) -> bool {
    &&& rs.len() > 0
    &&& publics.len() == rs.len() - 1
    &&& forall|i: int|
        0 <= i < rs.len() - 1 ==> (#[trigger] rs[i]).route.len() > 0 && hands_on(
            rs[i + 1],
            rs[i],
            publics[i],
        )
}

/// Every hop of a route is run, once and in its order. The request that comes to hop `i`
/// has the hops behind it left, each where it was; it is for the layers of that hop and
/// asks for what that hop should give, in a form that the next one can take; and it
/// tells the model, the session, the patch and the drawing that the first one told. A
/// request that has no hop left comes after all of them.
pub proof fn every_hop_is_run_in_order(
    rs: Seq<ComputeRequestView>,
    publics: Seq<Seq<u8>>,
    i: int,
)
    requires
        handed_down(rs, publics),
        0 <= i < rs.len(),
    ensures
        i <= rs[0].route.len(),
        rs[i].route.len() + i == rs[0].route.len(),
        forall|j: int|
            0 <= j < rs[i].route.len() ==> #[trigger] rs[i].route[j] == rs[0].route[i + j],
        i > 0 ==> {
            let hop = rs[0].route[i - 1];
            &&& rs[i].start_layer == hop.start_layer
            &&& rs[i].end_layer == hop.end_layer
            &&& rs[i].top_k == hop.top_k
            &&& rs[i].accepts_bf16 == (i < rs[0].route.len() && rs[0].route[i].accepts_bf16)
            &&& rs[i].requester_kx_public == publics[i - 1]
        },
        rs[i].model_id == rs[0].model_id,
        rs[i].session_id == rs[0].session_id,
        rs[i].draw == rs[0].draw,
        rs[i].patch_offset == rs[0].patch_offset,
        rs[i].patch_sequence == rs[0].patch_sequence,
        rs[i].branch == rs[0].branch,
        rs[i].layout == rs[0].layout,
        rs[i].route.len() == 0 ==> i == rs[0].route.len(),
    decreases i,
{
    if i > 0 {
        every_hop_is_run_in_order(rs, publics, i - 1);
        let before = rs[i - 1];
        assert(hands_on(rs[i], before, publics[i - 1]));
        assert(before.route[0] == rs[0].route[i - 1]);
        if before.route.len() > 1 {
            assert(before.route[1] == rs[0].route[i]);
        }
        assert forall|j: int| 0 <= j < rs[i].route.len() implies #[trigger] rs[i].route[j]
            == rs[0].route[i + j] by {
            assert(rs[i].route[j] == before.route[j + 1]);
        }
    }
}

/// The times that nodes of a chain computed, added up.
pub open spec fn time_sum(times: Seq<u64>) -> nat
    decreases times.len(),
{
    if times.len() == 0 {
        0
    } else {
        times[0] as nat + time_sum(times.skip(1))
    }
}

/// Answers that go back along a chain: each node makes its answer from that of the next
/// hop, and seals it under the secret that it has with the one who asked it.
pub open spec fn handed_up(
    resps: Seq<ComputeResponse>,
    secrets: Seq<Seq<u8>>,
    endpoints: Seq<Seq<char>>,
    times: Seq<u64>,
) -> bool {
    &&& resps.len() > 0
    &&& secrets.len() == resps.len()
    &&& times.len() == resps.len()
    &&& endpoints.len() == resps.len() - 1
    &&& forall|i: int|
        0 <= i < resps.len() - 1 ==> goes_back(
            secrets[i],
            secrets[i + 1],
            endpoints[i],
            Ok(resps[i + 1]),
            times[i],
            Ok(#[trigger] resps[i]),
        )
}

/// What the last node of a chain answers comes to the one who asked first as it was made,
/// with the times of all nodes added up: the nodes between change nothing of it.
pub proof fn an_answer_comes_back_as_it_was_made(
    resps: Seq<ComputeResponse>,
    secrets: Seq<Seq<u8>>,
    endpoints: Seq<Seq<char>>,
    times: Seq<u64>,
    plain: Seq<u8>,
)
    requires
        handed_up(resps, secrets, endpoints, times),
        answers(secrets.last(), resps.last(), plain, times.last()),
        time_sum(times) <= u64::MAX,
    ensures
        resps[0].ok,
        resps[0].compute_ms == time_sum(times),
        crate::transport::decryption(secrets[0], resps[0].encrypted_activations@) == Ok::<
            Seq<u8>,
            TransportError,
        >(plain),
    decreases resps.len(),
{
    if resps.len() == 1 {
        assert(time_sum(times.skip(1)) == 0);
        assert(times.last() == times[0]);
    } else {
        let r1 = resps.skip(1);
        let s1 = secrets.skip(1);
        let e1 = endpoints.skip(1);
        let t1 = times.skip(1);
        assert forall|i: int| 0 <= i < r1.len() - 1 implies goes_back(
            s1[i],
            s1[i + 1],
            e1[i],
            Ok(r1[i + 1]),
            t1[i],
            Ok(#[trigger] r1[i]),
        ) by {
            assert(r1[i] == resps[i + 1]);
        }
        an_answer_comes_back_as_it_was_made(r1, s1, e1, t1, plain);
        let first = resps[0];
        assert(goes_back(secrets[0], secrets[1], endpoints[0], Ok(resps[1]), times[0], Ok(first)));
    }
}

/// A hop that cannot be asked, or says that it failed, is named by its endpoint all the
/// same, and with what was said of it.
pub proof fn a_hop_that_fails_is_named(
    secret: Seq<u8>,
    next_secret: Seq<u8>,
    endpoint: Seq<char>,
    downstream: Result<ComputeResponse, String>,
    compute_ms: u64,
    r: Result<ComputeResponse, String>,
)
    requires
        goes_back(secret, next_secret, endpoint, downstream, compute_ms, r),
        downstream matches Ok(d) ==> !d.ok,
    ensures
        r matches Err(text) && {
            let cause = match downstream {
                Err(cause) => cause@,
                Ok(d) => d.error@,
            };
            text@ == "chain stalled at ["@ + endpoint + "]: "@ + cause
        },
{
}

/// Each part of an input travels in its own place, and is found in it by itself.
pub proof fn each_part_travels_in_its_own_place(
    secret: Seq<u8>,
    req: ComputeRequestView,
    input: SliceInputView,
)
    requires
        carries(secret, req, input),
        readable(input),
    ensures
        open_tensor(secret, req.encrypted_activations) == Ok::<
            crate::tensor::TensorView,
            ComputeError,
        >(input.activations),
        open_option(secret, req.encrypted_position_ids) == Ok::<
            Option<crate::tensor::TensorView>,
            ComputeError,
        >(input.positions),
        open_option(secret, req.encrypted_encoder_memory) == Ok::<
            Option<crate::tensor::TensorView>,
            ComputeError,
        >(input.memory),
        input.positions is None <==> req.encrypted_position_ids.len() == 0,
        input.memory is None <==> req.encrypted_encoder_memory.len() == 0,
        input.patch matches Some(p) ==> open_arguments(secret, req.encrypted_arguments) == Ok::<
            Seq<(u32, crate::tensor::TensorView)>,
            ComputeError,
        >(p.arguments),
{
    crate::tensor::a_written_tensor_reads_back(input.activations);
    if let Some(t) = input.positions {
        crate::tensor::a_written_tensor_reads_back(t);
    }
    if let Some(t) = input.memory {
        crate::tensor::a_written_tensor_reads_back(t);
    }
    if let Some(p) = input.patch {
        crate::tensor::written_arguments_read_back(p.arguments);
    }
}

/// Of the parts of a request that do not open, the first is the one that is told: the
/// activations before the positions, these before the memory, and that before the patch.
pub proof fn the_first_part_that_does_not_open_is_told(
    secret: Seq<u8>,
    req: ComputeRequestView,
)
    ensures
        open_tensor(secret, req.encrypted_activations) matches Err(e) ==> open_input(secret, req)
            == Err::<SliceInputView, ComputeError>(e),
        open_tensor(secret, req.encrypted_activations) is Ok && (open_option(
            secret,
            req.encrypted_position_ids,
        ) matches Err(e)) ==> open_input(secret, req) is Err && open_input(secret, req)->Err_0
            == open_option(secret, req.encrypted_position_ids)->Err_0,
        open_input(secret, req) is Ok ==> open_tensor(secret, req.encrypted_activations) is Ok
            && open_option(secret, req.encrypted_position_ids) is Ok && open_option(
            secret,
            req.encrypted_encoder_memory,
        ) is Ok && (req.patch_sequence > 0 ==> open_arguments(
            secret,
            req.encrypted_arguments,
        ) is Ok),
        open_input(secret, req) matches Ok(input) ==> (input.patch is Some <==> req.patch_sequence
            > 0),
{
}

/// What a request tells of a patch is the patch that is found: where it begins, of how much
/// it is a part, its branch and its layout.
pub proof fn a_patch_is_told_as_it_is(
    secret: Seq<u8>,
    req: ComputeRequestView,
    p: PatchView,
)
    requires
        open_patch(secret, req) == Ok::<Option<PatchView>, ComputeError>(Some(p)),
    ensures
        tells_patch(req, Some(p)),
        p.sequence > 0,
{
}

/// What a node hands on asks the next hop just as a client would that asked it for its slice:
/// for the layers and the candidates of that hop, with the hops behind it left.
pub proof fn what_is_handed_on_asks_for_the_hop(
    req: ComputeRequestView,
    next: ComputeRequestView,
    asker: Seq<u8>,
    public: Seq<u8>,
    model_id: Seq<char>,
    layers: (u32, u32),
    session_id: Seq<char>,
    top_k: u32,
    route: Seq<HopView>,
    accepts_bf16: bool,
    draw: Draw,
)
    requires
        route.len() > 0,
        asks(req, asker, model_id, layers, session_id, top_k, route, accepts_bf16, draw),
        hands_on(next, req, public),
    ensures
        asks(
            next,
            public,
            model_id,
            (route[0].start_layer, route[0].end_layer),
            session_id,
            route[0].top_k,
            route.skip(1),
            route.len() > 1 && route[1].accepts_bf16,
            draw,
        ),
        req.start_layer == layers.0 && req.end_layer == layers.1,
        req.top_k == top_k && req.accepts_bf16 == accepts_bf16,
        req.requester_kx_public == asker,
{
}

/// A node that has no hop left answers the one who asked with its output, and any other sends
/// it to the next hop: to the endpoint of that, under a key that the owner of its public key
/// shares, so that the owner finds in it the output and all that came along.
pub proof fn an_output_goes_where_the_route_leads(
    mine: Seq<u8>,
    req: ComputeRequestView,
    secret: Seq<u8>,
    input: SliceInputView,
    out: crate::tensor::TensorView,
    compute_ms: u64,
    r: Result<ChainStep, ChainError>,
    next: Seq<u8>,
)
    requires
        goes_on(mine, req, secret, next_input(input, out), compute_ms, r),
        readable(next_input(input, out)),
        tells_patch(req, input.patch),
        next.len() == 32,
    ensures
        match r {
            Ok(ChainStep::Answer(resp)) => req.route.len() == 0 && resp.compute_ms == compute_ms
                && read_response(secret, resp) == Ok::<crate::tensor::TensorView, ResponseFault>(
                out,
            ),
            Ok(ChainStep::Forward(f)) => req.route.len() > 0 && f.endpoint@
                == req.route[0].compute_endpoint && f.request@.route.len() + 1 == req.route.len()
                && (req.route[0].kx_public == crate::transport::x25519_public(next) ==> open_input(
                crate::transport::x25519_shared(next, f.request@.requester_kx_public),
                f.request@,
            ) == Ok::<SliceInputView, ComputeError>(
                SliceInputView {
                    activations: out,
                    positions: input.positions,
                    memory: input.memory,
                    patch: input.patch,
                },
            )),
            Err(e) => e is BadHopKey ==> req.route.len() > 0 && req.route[0].kx_public.len() != 32,
        },
{
    match r {
        Ok(ChainStep::Answer(resp)) => {
            what_is_answered_is_read(secret, resp, out, compute_ms);
        },
        Ok(ChainStep::Forward(f)) => {
            if req.route[0].kx_public == crate::transport::x25519_public(next) {
                let shared = crate::transport::x25519_shared(next, f.request@.requester_kx_public);
                assert(carries(shared, f.request@, next_input(input, out)));
                what_is_carried_is_found(shared, f.request@, next_input(input, out));
            }
        },
        Err(_) => {},
    }
}

/// An output goes on exactly where it can be sealed: it fails only where it is too long, or where
/// the key of the next hop is not one.
pub proof fn an_output_that_can_be_sealed_goes_on(
    mine: Seq<u8>,
    req: ComputeRequestView,
    secret: Seq<u8>,
    input: SliceInputView,
    compute_ms: u64,
    r: Result<ChainStep, ChainError>,
)
    requires
        goes_on(mine, req, secret, input, compute_ms, r),
    ensures
        r is Ok <==> if req.route.len() == 0 {
            crate::tensor::tensor_bytes(input.activations).len()
                <= crate::transport::longest_message()
        } else {
            req.route[0].kx_public.len() == 32 && sealable(input)
        },
        r is Ok ==> (req.route.len() == 0 <==> r->Ok_0 is Answer),
        input.positions is None && input.memory is None && input.patch is None ==> (sealable(input)
            <==> crate::tensor::tensor_bytes(input.activations).len()
            <= crate::transport::longest_message()),
{
}

} // verus!
