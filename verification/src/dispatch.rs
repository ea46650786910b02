//! The Dispatcher and the Forwarder's decisions: every inbound request is
//! classified by content type, verified, possibly notarized, and either
//! rejected with a client error or handed on for forwarding; the backend
//! outcome is relayed unchanged, a transport failure as a fixed 502.
use vstd::prelude::*;
use crate::bytes_util::{contains_bytes, contains_seq, find_at, first_match_from, push_all, starts_with, sub_vec};
use crate::keys::KeyStore;
use crate::hexcode::{hex_of, valid_hex};
use crate::mac::{lemma_invalid_hex_never_verifies, lemma_verify_own_mac, mac_of, verified_spec, verify_signature};
use crate::multipart::{
    encode_body, encode_multipart, fields_view, lemma_multipart_round_trip, lemma_parse_body_wf,
    parse_body, parse_multipart, wf_field, wf_fields, FieldModel, MultipartField,
};
use crate::notary::{notarized_spec, sign_artwork};

verus! {

/// The bytes of `multipart/form-data`.
pub open spec fn multipart_ct_s() -> Seq<u8> {
    seq![109u8, 117u8, 108u8, 116u8, 105u8, 112u8, 97u8, 114u8, 116u8, 47u8, 102u8, 111u8, 114u8, 109u8, 45u8, 100u8, 97u8, 116u8, 97u8]
}

/// The bytes of `application/json`.
pub open spec fn json_ct_s() -> Seq<u8> {
    seq![97u8, 112u8, 112u8, 108u8, 105u8, 99u8, 97u8, 116u8, 105u8, 111u8, 110u8, 47u8, 106u8, 115u8, 111u8, 110u8]
}

/// The bytes of `boundary=`.
pub open spec fn boundary_key_s() -> Seq<u8> {
    seq![98u8, 111u8, 117u8, 110u8, 100u8, 97u8, 114u8, 121u8, 61u8]
}

/// The bytes of the artifact-creation route pattern `/post/create`.
pub open spec fn create_path_s() -> Seq<u8> {
    seq![47u8, 112u8, 111u8, 115u8, 116u8, 47u8, 99u8, 114u8, 101u8, 97u8, 116u8, 101u8]
}

/// The bytes of the designated artifact field name `file`.
pub open spec fn file_name_s() -> Seq<u8> {
    seq![102u8, 105u8, 108u8, 101u8]
}

/// The bytes of `POST`.
pub open spec fn post_s() -> Seq<u8> {
    seq![80u8, 79u8, 83u8, 84u8]
}

/// The bytes of `PUT`.
pub open spec fn put_s() -> Seq<u8> {
    seq![80u8, 85u8, 84u8]
}

/// The fixed diagnostic body sent when the backend is unreachable.
pub open spec fn upstream_msg_s() -> Seq<u8> {
    seq![78u8, 101u8, 115u8, 116u8, 74u8, 83u8, 32u8, 105u8, 115u8, 32u8, 117u8, 110u8, 114u8, 101u8, 97u8, 99u8, 104u8, 97u8, 98u8, 108u8, 101u8]
}

/// The body of a 401: no secret and no computed MAC leaves the gateway.
pub open spec fn unauthorized_msg_s() -> Seq<char> {
    "Invalid Integrity Signature"@
}

/// The body of a 400 for an unsupported content type, naming both
/// supported types.
pub open spec fn unsupported_msg_s() -> Seq<char> {
    "the Content-Type header is not supported. Only use one of these ('application/json', 'multipart/form-data')"@
}

/// An inbound request, reduced to what the pipeline reads: the method,
/// the path with its query, the content-type header value, the integrity
/// signature header if present, and the buffered body bytes.
pub struct InboundRequest {
    pub method: Vec<u8>,
    pub path_and_query: Vec<u8>,
    pub content_type: Vec<u8>,
    pub signature: Option<String>,
    pub body: Vec<u8>,
}

/// The mathematical model of an inbound request.
pub struct RequestModel {
    pub method: Seq<u8>,
    pub path_and_query: Seq<u8>,
    pub content_type: Seq<u8>,
    pub signature: Option<Seq<char>>,
    pub body: Seq<u8>,
}

impl View for InboundRequest {
    type V = RequestModel;

    open spec fn view(&self) -> RequestModel {
        RequestModel {
            method: self.method@,
            path_and_query: self.path_and_query@,
            content_type: self.content_type@,
            signature: match self.signature {
                Some(s) => Some(s@),
                None => None,
            },
            body: self.body@,
        }
    }
}

/// What the pipeline decides for one request: reject it with a client
/// error, or forward the (possibly rebuilt) body, possibly carrying a
/// notarization seal header value.
pub enum Decision {
    Reject { status: u16, message: String },
    Forward { body: Vec<u8>, seal: Option<String> },
}

/// The mathematical model of a decision.
pub enum DecisionModel {
    Reject { status: u16, message: Seq<char> },
    Forward { body: Seq<u8>, seal: Option<Seq<char>> },
}

impl View for Decision {
    type V = DecisionModel;

    open spec fn view(&self) -> DecisionModel {
        match self {
            Decision::Reject { status, message } => DecisionModel::Reject {
                status: *status,
                message: message@,
            },
            Decision::Forward { body, seal } => DecisionModel::Forward {
                body: body@,
                seal: match seal {
                    Some(s) => Some(s@),
                    None => None,
                },
            },
        }
    }
}

/// The boundary parameter of a multipart content type: what follows
/// `boundary=`, up to the next `;` or the end.
pub open spec fn boundary_of(ct: Seq<u8>) -> Option<Seq<u8>> {
    match first_match_from(ct, boundary_key_s(), 0) {
        Some(j) => if 0 <= j && j + 9 <= ct.len() {
            let after = ct.skip(j + 9);
            match first_match_from(after, seq![59u8], 0) {
                Some(k) => if 0 <= k <= after.len() {
                    Some(after.take(k))
                } else {
                    None
                },
                None => Some(after),
            }
        } else {
            None
        },
        None => None,
    }
}

/// The field is the designated artifact field: it is named `file` or it
/// carries a filename.
pub open spec fn is_artifact_field(f: FieldModel) -> bool {
    f.name == file_name_s() || f.filename is Some
}

/// The metadata fields, in their original relative order.
pub open spec fn metadata_of(fs: Seq<FieldModel>) -> Seq<FieldModel>
    decreases fs.len(),
{
    if fs.len() == 0 {
        Seq::<FieldModel>::empty()
    } else {
        metadata_of(fs.drop_last()) + (if !is_artifact_field(fs.last()) {
            seq![fs.last()]
        } else {
            Seq::<FieldModel>::empty()
        })
    }
}

/// The retained artifact field: the last one encountered wins.
pub open spec fn artifact_of(fs: Seq<FieldModel>) -> Option<FieldModel>
    decreases fs.len(),
{
    if fs.len() == 0 {
        None
    } else if is_artifact_field(fs.last()) {
        Some(fs.last())
    } else {
        artifact_of(fs.drop_last())
    }
}

/// The bytes that the integrity signature is verified over: the artifact
/// payload, or nothing when no artifact field is present.
pub open spec fn artifact_bytes_of(fs: Seq<FieldModel>) -> Seq<u8> {
    match artifact_of(fs) {
        Some(f) => f.data,
        None => Seq::<u8>::empty(),
    }
}

/// The rebuilt field list: the metadata fields in order, then, when the
/// artifact payload is non-empty, the artifact under the name `file` with
/// its original filename and mime type.
pub open spec fn rebuilt_fields(fs: Seq<FieldModel>) -> Seq<FieldModel> {
    match artifact_of(fs) {
        Some(f) => if f.data.len() > 0 {
            metadata_of(fs) + seq![
                FieldModel {
                    name: file_name_s(),
                    filename: f.filename,
                    mime: f.mime,
                    data: f.data,
                },
            ]
        } else {
            metadata_of(fs)
        },
        None => metadata_of(fs),
    }
}

/// The method is a write method.
pub open spec fn is_write_method(m: Seq<u8>) -> bool {
    m == post_s() || m == put_s()
}

/// The request earns a notarization seal: it targets an artifact-creation
/// route with a write method and carries a non-empty artifact payload.
pub open spec fn wants_seal(r: RequestModel, art: Seq<u8>) -> bool {
    contains_seq(r.path_and_query, create_path_s()) && is_write_method(r.method) && art.len() > 0
}

/// The decision the pipeline owes for request `r` under integrity key
/// `ikey` and notary seed `seed`.
pub open spec fn dispatch_spec(r: RequestModel, ikey: Seq<u8>, seed: Seq<u8>) -> DecisionModel {
    if contains_seq(r.content_type, multipart_ct_s()) {
        match boundary_of(r.content_type) {
            Some(bnd) => match parse_body(r.body, bnd) {
                Some(fields) => {
                    let art = artifact_bytes_of(fields);
                    match r.signature {
                        Some(sig) => if verified_spec(art, sig, ikey) {
                            DecisionModel::Forward {
                                body: encode_body(bnd, rebuilt_fields(fields)),
                                seal: if wants_seal(r, art) {
                                    Some(notarized_spec(art, seed))
                                } else {
                                    None
                                },
                            }
                        } else {
                            DecisionModel::Reject { status: 401, message: unauthorized_msg_s() }
                        },
                        None => DecisionModel::Reject {
                            status: 401,
                            message: unauthorized_msg_s(),
                        },
                    }
                },
                None => DecisionModel::Reject { status: 400, message: Seq::<char>::empty() },
            },
            None => DecisionModel::Reject { status: 400, message: Seq::<char>::empty() },
        }
    } else if contains_seq(r.content_type, json_ct_s()) {
        match r.signature {
            Some(sig) => if verified_spec(r.body, sig, ikey) {
                DecisionModel::Forward { body: r.body, seal: None }
            } else {
                DecisionModel::Reject { status: 401, message: unauthorized_msg_s() }
            },
            None => DecisionModel::Reject { status: 401, message: unauthorized_msg_s() },
        }
    } else {
        DecisionModel::Reject { status: 400, message: unsupported_msg_s() }
    }
}


/// The multipart content-type bytes, as a vector.
fn multipart_ct_vec() -> (r: Vec<u8>)
    ensures
        r@ == multipart_ct_s(),
{
    let mut v: Vec<u8> = Vec::new();
    v.push(109u8);
    v.push(117u8);
    v.push(108u8);
    v.push(116u8);
    v.push(105u8);
    v.push(112u8);
    v.push(97u8);
    v.push(114u8);
    v.push(116u8);
    v.push(47u8);
    v.push(102u8);
    v.push(111u8);
    v.push(114u8);
    v.push(109u8);
    v.push(45u8);
    v.push(100u8);
    v.push(97u8);
    v.push(116u8);
    v.push(97u8);
    proof {
        assert(v@ =~= multipart_ct_s());
    }
    v
}

/// The json content-type bytes, as a vector.
fn json_ct_vec() -> (r: Vec<u8>)
    ensures
        r@ == json_ct_s(),
{
    let mut v: Vec<u8> = Vec::new();
    v.push(97u8);
    v.push(112u8);
    v.push(112u8);
    v.push(108u8);
    v.push(105u8);
    v.push(99u8);
    v.push(97u8);
    v.push(116u8);
    v.push(105u8);
    v.push(111u8);
    v.push(110u8);
    v.push(47u8);
    v.push(106u8);
    v.push(115u8);
    v.push(111u8);
    v.push(110u8);
    proof {
        assert(v@ =~= json_ct_s());
    }
    v
}

/// The boundary parameter key bytes, as a vector.
fn boundary_key_vec() -> (r: Vec<u8>)
    ensures
        r@ == boundary_key_s(),
{
    let mut v: Vec<u8> = Vec::new();
    v.push(98u8);
    v.push(111u8);
    v.push(117u8);
    v.push(110u8);
    v.push(100u8);
    v.push(97u8);
    v.push(114u8);
    v.push(121u8);
    v.push(61u8);
    proof {
        assert(v@ =~= boundary_key_s());
    }
    v
}

/// The artifact-creation route bytes, as a vector.
fn create_path_vec() -> (r: Vec<u8>)
    ensures
        r@ == create_path_s(),
{
    let mut v: Vec<u8> = Vec::new();
    v.push(47u8);
    v.push(112u8);
    v.push(111u8);
    v.push(115u8);
    v.push(116u8);
    v.push(47u8);
    v.push(99u8);
    v.push(114u8);
    v.push(101u8);
    v.push(97u8);
    v.push(116u8);
    v.push(101u8);
    proof {
        assert(v@ =~= create_path_s());
    }
    v
}

/// The artifact field name bytes, as a vector.
fn file_name_vec() -> (r: Vec<u8>)
    ensures
        r@ == file_name_s(),
{
    let mut v: Vec<u8> = Vec::new();
    v.push(102u8);
    v.push(105u8);
    v.push(108u8);
    v.push(101u8);
    proof {
        assert(v@ =~= file_name_s());
    }
    v
}

/// The POST method bytes, as a vector.
fn post_vec() -> (r: Vec<u8>)
    ensures
        r@ == post_s(),
{
    let mut v: Vec<u8> = Vec::new();
    v.push(80u8);
    v.push(79u8);
    v.push(83u8);
    v.push(84u8);
    proof {
        assert(v@ =~= post_s());
    }
    v
}

/// The PUT method bytes, as a vector.
fn put_vec() -> (r: Vec<u8>)
    ensures
        r@ == put_s(),
{
    let mut v: Vec<u8> = Vec::new();
    v.push(80u8);
    v.push(85u8);
    v.push(84u8);
    proof {
        assert(v@ =~= put_s());
    }
    v
}

/// The two byte sequences are equal.
fn slices_eq(a: &[u8], b: &[u8]) -> (r: bool)
    ensures
        r == (a@ == b@),
{
    if a.len() != b.len() {
        proof {
            assert(a@ != b@);
        }
        return false;
    }
    let mut i: usize = 0;
    while i < a.len()
        invariant
            i <= a@.len(),
            a@.len() == b@.len(),
            forall|k: int| 0 <= k < i ==> a@[k] == b@[k],
        decreases a@.len() - i,
    {
        if a[i] != b[i] {
            return false;
        }
        i = i + 1;
    }
    assert(a@ =~= b@);
    true
}

/// The boundary parameter of the content-type header, or nothing when the
/// header names none.
fn extract_boundary(ct: &[u8]) -> (r: Option<Vec<u8>>)
    ensures
        match r {
            Some(v) => boundary_of(ct@) == Some(v@),
            None => boundary_of(ct@) is None,
        },
{
    let n = ct.len();
    proof {
        assert(ct@.skip(0) =~= ct@);
    }
    let key = boundary_key_vec();
    let j = match find_at(ct, key.as_slice(), 0) {
        Some(j) => j,
        None => {
            return None;
        },
    };
    let start = j + 9;
    let mut semi: Vec<u8> = Vec::new();
    semi.push(59u8);
    proof {
        assert(semi@ =~= seq![59u8]);
    }
    let ghost after = ct@.skip(start as int);
    match find_at(ct, semi.as_slice(), start) {
        Some(k) => {
            let b = sub_vec(ct, start, k);
            proof {
                assert(b@ =~= after.take(k - start));
            }
            Some(b)
        },
        None => {
            let b = sub_vec(ct, start, n);
            proof {
                assert(b@ =~= after);
            }
            Some(b)
        },
    }
}

/// A verified copy of a byte vector.
fn copy_vec(v: &Vec<u8>) -> (r: Vec<u8>)
    ensures
        r@ == v@,
{
    let r = sub_vec(v.as_slice(), 0, v.len());
    proof {
        assert(v@.subrange(0, v@.len() as int) =~= v@);
    }
    r
}

/// A verified copy of a field.
fn copy_field(f: &MultipartField) -> (r: MultipartField)
    ensures
        r@ == f@,
{
    let name = copy_vec(&f.name);
    let filename = match &f.filename {
        Some(x) => Some(copy_vec(x)),
        None => None,
    };
    let mime = match &f.mime {
        Some(x) => Some(copy_vec(x)),
        None => None,
    };
    let data = copy_vec(&f.data);
    MultipartField { name, filename, mime, data }
}

/// The field is the designated artifact field.
fn is_artifact_exec(f: &MultipartField) -> (r: bool)
    ensures
        r == is_artifact_field(f@),
{
    let fname = file_name_vec();
    if slices_eq(f.name.as_slice(), fname.as_slice()) {
        return true;
    }
    f.filename.is_some()
}

/// Model of an optional field.
pub open spec fn opt_field_view(o: Option<MultipartField>) -> Option<FieldModel> {
    match o {
        Some(f) => Some(f@),
        None => None,
    }
}

/// Splits the parsed fields into the metadata fields, in order, and the
/// retained artifact field, the last one encountered winning.
fn select_fields(fields: &Vec<MultipartField>) -> (r: (Vec<MultipartField>, Option<MultipartField>))
    ensures
        fields_view(r.0@) == metadata_of(fields_view(fields@)),
        opt_field_view(r.1) == artifact_of(fields_view(fields@)),
{
    let ghost fv = fields_view(fields@);
    let mut meta: Vec<MultipartField> = Vec::new();
    let mut art: Option<MultipartField> = None;
    let mut i: usize = 0;
    while i < fields.len()
        invariant
            i <= fields@.len(),
            fields_view(meta@) == metadata_of(fv.take(i as int)),
            opt_field_view(art) == artifact_of(fv.take(i as int)),
        decreases fields@.len() - i,
    {
        let f = copy_field(&fields[i]);
        proof {
            assert(fv.take(i + 1).drop_last() =~= fv.take(i as int));
            assert(fv.take(i + 1).last() == fv[i as int]);
            assert(fv[i as int] == fields@[i as int]@);
        }
        if is_artifact_exec(&f) {
            art = Some(f);
            proof {
                assert(fields_view(meta@) =~= metadata_of(fv.take(i + 1)));
            }
        } else {
            meta.push(f);
            proof {
                assert(fields_view(meta@) =~= metadata_of(fv.take(i + 1)));
            }
        }
        i = i + 1;
    }
    proof {
        assert(fv.take(fields@.len() as int) =~= fv);
    }
    (meta, art)
}

/// Runs the whole per-request pipeline: classifies the request by content
/// type, verifies the integrity signature over the governed bytes (the
/// full body for json, the artifact payload for multipart), rebuilds a
/// multipart body for forwarding, and attaches the notarization seal on
/// artifact-creation writes. The backend is never contacted for a
/// rejected request.
pub fn proxy_handler(req: &InboundRequest, keys: &KeyStore) -> (d: Decision)
    requires
        keys.wf(),
    ensures
        d@ == dispatch_spec(req@, keys.integrity_key_spec(), keys.notary_seed_spec()),
{
    let mp = multipart_ct_vec();
    if contains_bytes(req.content_type.as_slice(), mp.as_slice()) {
        let bnd = match extract_boundary(req.content_type.as_slice()) {
            Some(b) => b,
            None => {
                return Decision::Reject { status: 400, message: String::new() };
            },
        };
        let fields = match parse_multipart(req.body.as_slice(), bnd.as_slice()) {
            Some(fs) => fs,
            None => {
                return Decision::Reject { status: 400, message: String::new() };
            },
        };
        let (meta, art) = select_fields(&fields);
        let empty_data: Vec<u8> = Vec::new();
        let art_bytes: &Vec<u8> = match &art {
            Some(f) => &f.data,
            None => &empty_data,
        };
        proof {
            assert(art_bytes@ == artifact_bytes_of(fields_view(fields@)));
        }
        let sig = match &req.signature {
            Some(s) => s,
            None => {
                return Decision::Reject {
                    status: 401,
                    message: "Invalid Integrity Signature".to_owned(),
                };
            },
        };
        if !verify_signature(art_bytes.as_slice(), sig.as_str(), keys) {
            return Decision::Reject {
                status: 401,
                message: "Invalid Integrity Signature".to_owned(),
            };
        }
        let cp = create_path_vec();
        let mut seal: Option<String> = None;
        if contains_bytes(req.path_and_query.as_slice(), cp.as_slice()) {
            let pv = post_vec();
            let uv = put_vec();
            let is_post = slices_eq(req.method.as_slice(), pv.as_slice());
            let is_put = slices_eq(req.method.as_slice(), uv.as_slice());
            if (is_post || is_put) && art_bytes.len() > 0 {
                seal = Some(sign_artwork(art_bytes.as_slice(), keys));
            }
        }
        let mut rebuilt = meta;
        match art {
            Some(f) => {
                if f.data.len() > 0 {
                    let nm = file_name_vec();
                    rebuilt.push(
                        MultipartField {
                            name: nm,
                            filename: f.filename,
                            mime: f.mime,
                            data: f.data,
                        },
                    );
                }
            },
            None => {},
        }
        proof {
            assert(fields_view(rebuilt@) =~= rebuilt_fields(fields_view(fields@)));
        }
        let body = encode_multipart(bnd.as_slice(), &rebuilt);
        Decision::Forward { body, seal }
    } else {
        let js = json_ct_vec();
        if contains_bytes(req.content_type.as_slice(), js.as_slice()) {
            let sig = match &req.signature {
                Some(s) => s,
                None => {
                    return Decision::Reject {
                        status: 401,
                        message: "Invalid Integrity Signature".to_owned(),
                    };
                },
            };
            if verify_signature(req.body.as_slice(), sig.as_str(), keys) {
                let body = copy_vec(&req.body);
                Decision::Forward { body, seal: None }
            } else {
                Decision::Reject { status: 401, message: "Invalid Integrity Signature".to_owned() }
            }
        } else {
            Decision::Reject {
                status: 400,
                message: "the Content-Type header is not supported. Only use one of these ('application/json', 'multipart/form-data')".to_owned(),
            }
        }
    }
}

/// What came back from the one backend round trip: a reply, or a
/// transport failure.
pub enum UpstreamOutcome {
    Reply { status: u16, body: Vec<u8> },
    Unreachable,
}

/// What the gateway answers the original caller.
pub struct GatewayResponse {
    pub status: u16,
    pub body: Vec<u8>,
}

/// Relays the backend outcome: a reply passes through unchanged, byte for
/// byte; a transport failure becomes a fixed 502 with its diagnostic
/// body. No retry is attempted.
pub fn redirect_to_backend(outcome: UpstreamOutcome) -> (r: GatewayResponse)
    ensures
        match outcome {
            UpstreamOutcome::Reply { status, body } => r.status == status && r.body@ == body@,
            UpstreamOutcome::Unreachable => r.status == 502 && r.body@ == upstream_msg_s(),
        },
{
    match outcome {
        UpstreamOutcome::Reply { status, body } => GatewayResponse { status, body },
        UpstreamOutcome::Unreachable => {
            let mut v: Vec<u8> = Vec::new();
            v.push(78u8);
            v.push(101u8);
            v.push(115u8);
            v.push(116u8);
            v.push(74u8);
            v.push(83u8);
            v.push(32u8);
            v.push(105u8);
            v.push(115u8);
            v.push(32u8);
            v.push(117u8);
            v.push(110u8);
            v.push(114u8);
            v.push(101u8);
            v.push(97u8);
            v.push(99u8);
            v.push(104u8);
            v.push(97u8);
            v.push(98u8);
            v.push(108u8);
            v.push(101u8);
            proof {
                assert(v@ =~= upstream_msg_s());
            }
            GatewayResponse { status: 502, body: v }
        },
    }
}


/// Every metadata field of a well-formed list is itself well formed.
proof fn lemma_metadata_wf(fs: Seq<FieldModel>, b: Seq<u8>)
    requires
        wf_fields(fs, b),
    ensures
        wf_fields(metadata_of(fs), b),
    decreases fs.len(),
{
    if fs.len() == 0 {
    } else {
        assert(wf_fields(fs.drop_last(), b)) by {
            assert(forall|i: int|
                0 <= i < fs.drop_last().len() ==> #[trigger] fs.drop_last()[i] == fs[i]);
        }
        lemma_metadata_wf(fs.drop_last(), b);
        let m = metadata_of(fs);
        let prev = metadata_of(fs.drop_last());
        assert(fs.last() == fs[fs.len() - 1]);
        assert forall|i: int| 0 <= i < m.len() implies wf_field(#[trigger] m[i], b) by {
            if i < prev.len() {
                assert(m[i] == prev[i]);
            } else {
                assert(m[i] == fs.last());
            }
        }
    }
}

/// The retained artifact field of a well-formed list is well formed.
proof fn lemma_artifact_wf(fs: Seq<FieldModel>, b: Seq<u8>)
    requires
        wf_fields(fs, b),
    ensures
        match artifact_of(fs) {
            Some(f) => wf_field(f, b),
            None => true,
        },
    decreases fs.len(),
{
    if fs.len() == 0 {
    } else if is_artifact_field(fs.last()) {
        assert(fs.last() == fs[fs.len() - 1]);
    } else {
        assert(wf_fields(fs.drop_last(), b)) by {
            assert(forall|i: int|
                0 <= i < fs.drop_last().len() ==> #[trigger] fs.drop_last()[i] == fs[i]);
        }
        lemma_artifact_wf(fs.drop_last(), b);
    }
}

/// No multipart field is lost in forwarding: whatever a multipart body
/// parses to, the body rebuilt from it parses back to exactly the
/// rebuilt field list, with its metadata values, filename, mime type and
/// byte-exact artifact payload.
pub proof fn lemma_forward_preserves_fields(body: Seq<u8>, b: Seq<u8>, fs: Seq<FieldModel>)
    requires
        parse_body(body, b) == Some(fs),
    ensures
        parse_body(encode_body(b, rebuilt_fields(fs)), b) == Some(rebuilt_fields(fs)),
{
    lemma_parse_body_wf(body, b);
    lemma_metadata_wf(fs, b);
    lemma_artifact_wf(fs, b);
    let rb = rebuilt_fields(fs);
    let meta = metadata_of(fs);
    assert forall|i: int| 0 <= i < rb.len() implies wf_field(#[trigger] rb[i], b) by {
        if i < meta.len() {
            assert(rb[i] == meta[i]);
        } else {
            let f = artifact_of(fs).unwrap();
            assert(rb[i] == FieldModel {
                name: file_name_s(),
                filename: f.filename,
                mime: f.mime,
                data: f.data,
            });
            assert forall|k: int| 0 <= k < file_name_s().len() implies file_name_s()[k] != 34u8
                by {}
        }
    }
    lemma_multipart_round_trip(b, rb);
}


/// A json request that carries the hex rendering of the MAC of its own
/// body under the gateway's own integrity key is forwarded unchanged,
/// with no seal.
pub proof fn lemma_json_own_mac_forwarded(r: RequestModel, ikey: Seq<u8>, seed: Seq<u8>)
    requires
        !contains_seq(r.content_type, multipart_ct_s()),
        contains_seq(r.content_type, json_ct_s()),
        r.signature == Some(hex_of(mac_of(ikey, r.body))),
    ensures
        dispatch_spec(r, ikey, seed) == (DecisionModel::Forward { body: r.body, seal: None }),
{
    lemma_verify_own_mac(r.body, ikey);
}

/// A json request whose signature header is not valid hexadecimal is
/// rejected with a 401, whatever the body and the key.
pub proof fn lemma_json_invalid_hex_rejected(
    r: RequestModel,
    sig: Seq<char>,
    ikey: Seq<u8>,
    seed: Seq<u8>,
)
    requires
        !contains_seq(r.content_type, multipart_ct_s()),
        contains_seq(r.content_type, json_ct_s()),
        r.signature == Some(sig),
        !valid_hex(sig),
    ensures
        dispatch_spec(r, ikey, seed) == (DecisionModel::Reject {
            status: 401,
            message: unauthorized_msg_s(),
        }),
{
    lemma_invalid_hex_never_verifies(r.body, sig, ikey);
}

} // verus!



