//! A client that runs the first layers itself and has one node run the rest.

use vstd::prelude::*;

use crate::compute::{
    open_response, seal_request, ComputeRequest, ComputeResponse, Draw, Hop, ResponseFault,
    SliceInput,
};
use crate::tensor::Tensor;
use crate::transport::{KeyExchange, TransportError};

pub use crate::logits::{argmax_last_token, ids_to_tensor};

verus! {

/// The node that runs the rest of the layers.
#[derive(Debug)]
pub struct RemoteStage {
    pub daemon_endpoint: String,
    pub host_kx_public: [u8; 32],
    pub start_layer: u32,
    pub end_layer: u32,
}

/// A client with the first layers of a model. The token ids enter these layers
/// and no others: what goes to the node is what came out of them, sealed for it,
/// and what comes back is made into a token here.
pub struct ClientSession {
    pub client_kx: KeyExchange,
    pub model_id: String,
    pub local_start: u32,
    pub local_end: u32,
    pub remote: RemoteStage,
}

/// Activations and nothing that comes along with them.
pub open spec fn bare(activations: crate::tensor::TensorView) -> crate::compute::SliceInputView {
    crate::compute::SliceInputView { activations, positions: None, memory: None, patch: None }
}

/// Nothing is drawn at the node.
pub open spec fn nothing_drawn() -> Draw {
    Draw { guidance_bits: 0, sample: false, temperature_bits: 0, top_p_bits: 0, seed: 0 }
}

impl ClientSession {
    /// The secret that the client shares with the node.
    pub open spec fn secret(&self) -> Seq<u8> {
        crate::transport::x25519_shared(self.client_kx.secret(), self.remote.host_kx_public@)
    }

    /// What the client runs its own layers on: the tokens.
    pub fn local_input(&self, ids: &[i64]) -> (input: SliceInput)
        ensures
            input@ == bare(crate::logits::ids_tensor(ids@)),
    {
        SliceInput { activations: ids_to_tensor(ids), positions: None, memory: None, patch: None }
    }

    /// The request to the node once the client's own layers were run: it carries
    /// what came out of them, to the owner of the node's key, and asks for all of
    /// the output of the other layers. It fails exactly where that is too long to be
    /// sealed.
    pub fn forward(&self, local_activations: Tensor, session_id: &str) -> (r: Result<
        ComputeRequest,
        TransportError,
    >)
        ensures
            match r {
                Ok(req) => {
                    let input = bare(local_activations@);
                    &&& crate::compute::sealable(input)
                    &&& crate::compute::carries(self.secret(), req@, input)
                    &&& forall|host: Seq<u8>|
                        host.len() == 32 && self.remote.host_kx_public@
                            == #[trigger] crate::transport::x25519_public(host)
                            ==> crate::compute::carries(
                            crate::transport::x25519_shared(host, self.client_kx.public()),
                            req@,
                            input,
                        )
                    &&& crate::compute::tells_patch(req@, None)
                    &&& crate::compute::asks(
                        req@,
                        self.client_kx.public(),
                        self.model_id@,
                        (self.remote.start_layer, self.remote.end_layer),
                        session_id@,
                        0,
                        Seq::empty(),
                        false,
                        nothing_drawn(),
                    )
                    &&& req@.start_layer == self.remote.start_layer
                    &&& req@.end_layer == self.remote.end_layer
                    &&& req@.route.len() == 0
                },
                Err(e) => !crate::compute::sealable(bare(local_activations@)) && e
                    == TransportError::TooLong,
            },
    {
        let input = SliceInput {
            activations: local_activations,
            positions: None,
            memory: None,
            patch: None,
        };
        let draw = Draw {
            guidance_bits: 0,
            sample: false,
            temperature_bits: 0,
            top_p_bits: 0,
            seed: 0,
        };
        let route: Vec<Hop> = Vec::new();
        assert(crate::compute::hop_views(route@) =~= Seq::empty());
        seal_request(
            &self.client_kx,
            &self.remote.host_kx_public,
            self.model_id.as_str(),
            self.remote.start_layer,
            self.remote.end_layer,
            session_id,
            &input,
            0,
            route,
            false,
            draw,
        )
    }

    /// The output of the last layer, out of what the node answered.
    pub fn logits(&self, resp: &ComputeResponse) -> (r: Result<Tensor, ResponseFault>)
        ensures
            match r {
                Ok(t) => crate::compute::read_response(self.secret(), *resp) == Ok::<
                    crate::tensor::TensorView,
                    ResponseFault,
                >(t@),
                Err(e) => crate::compute::read_response(self.secret(), *resp) == Err::<
                    crate::tensor::TensorView,
                    ResponseFault,
                >(e),
            },
    {
        let secret = self.client_kx.shared_secret(&self.remote.host_kx_public);
        match open_response(&secret, resp) {
            Ok((t, _, _)) => Ok(t),
            Err(e) => Err(e),
        }
    }
}

/// A model cut in two: the layers of the first half, and those of the rest.
pub fn halves(total: u32) -> (r: ((u32, u32), (u32, u32)))
    ensures
        r.0.0 == 0,
        r.0.1 == total / 2,
        r.1.0 == r.0.1,
        r.1.1 == total,
        0 <= (r.1.1 - r.1.0) - (r.0.1 - r.0.0) <= 1,
{
    let mid: u32 = total / 2;
    ((0, mid), (mid, total))
}

} // verus!
