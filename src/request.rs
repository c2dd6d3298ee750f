//! What the prediction endpoint decides about a request before and after the
//! model is consulted, and the status each outcome is answered with.

use vstd::prelude::*;
use vstd::utf8::{decode_utf8, encode_utf8_decode_utf8, valid_utf8};
use crate::labels::{texts, LabelMap};
use crate::text::{bytes_equal, split_commas, split_on, utf8_text};

verus! {

/// Why a prediction request was not answered with a prediction.
#[derive(Debug, Clone, Copy, PartialEq, Eq, Structural)]
pub enum InvocationError {
    /// The content type is absent or is not `text/csv`.
    UnsupportedMediaType,
    /// The body is not well-formed UTF-8.
    NotUtf8,
    /// The body holds a number of comma-separated fields other than the model's
    /// feature count.
    WrongArity { expected: usize, found: usize },
    /// The field at this position is not a number.
    NotANumber { field: usize },
    /// The model answered with a class code that has no label.
    UnknownClass { code: usize },
    /// The model could not make a prediction.
    PredictionFailed,
}

/// The HTTP status of each error: the client's mistakes are 4xx, the model's 5xx.
pub open spec fn status_of(e: InvocationError) -> u16 {
    match e {
        InvocationError::UnsupportedMediaType => 415,
        InvocationError::NotUtf8 => 400,
        InvocationError::WrongArity { .. } => 400,
        InvocationError::NotANumber { .. } => 400,
        InvocationError::UnknownClass { .. } => 500,
        InvocationError::PredictionFailed => 500,
    }
}

impl InvocationError {
    /// The HTTP status this error is answered with.
    pub fn status(&self) -> (r: u16)
        ensures
            r == status_of(*self),
    {
        match self {
            InvocationError::UnsupportedMediaType => 415,
            InvocationError::NotUtf8 => 400,
            InvocationError::WrongArity { .. } => 400,
            InvocationError::NotANumber { .. } => 400,
            InvocationError::UnknownClass { .. } => 500,
            InvocationError::PredictionFailed => 500,
        }
    }
}

/// The status of the liveness probe.
pub open spec fn ping_status_spec() -> u16 {
    200
}

/// The status of the liveness probe: it needs no state, so it holds once the
/// server runs, whatever else it is doing.
pub fn ping_status() -> (r: u16)
    ensures
        r == ping_status_spec(),
        r == 200,
{
    200
}

/// The text of an optional header value.
pub open spec fn opt_text(v: Option<&str>) -> Option<Seq<char>> {
    match v {
        Some(s) => Some(s@),
        None => None,
    }
}

/// Whether a content type is the CSV media type.
pub open spec fn is_csv_media_type(ct: Option<Seq<char>>) -> bool {
    ct matches Some(t) && t == "text/csv"@
}

/// The fields of a request body, or why the request is refused before the
/// model is consulted.
pub open spec fn invocation_fields(ct: Option<Seq<char>>, body: Seq<u8>, n: nat) -> Result<
    Seq<Seq<char>>,
    InvocationError,
> {
    if !is_csv_media_type(ct) {
        Err(InvocationError::UnsupportedMediaType)
    } else if !valid_utf8(body) {
        Err(InvocationError::NotUtf8)
    } else {
        let f = split_on(decode_utf8(body), ',');
        if f.len() != n {
            Err(InvocationError::WrongArity { expected: n as usize, found: f.len() as usize })
        } else {
            Ok(f)
        }
    }
}

/// Whether the content type is `text/csv`.
pub fn accepts_media_type(content_type: Option<&str>) -> (r: bool)
    ensures
        r == is_csv_media_type(opt_text(content_type)),
{
    match content_type {
        None => false,
        Some(t) => {
            let csv = "text/csv";
            let same = bytes_equal(t.as_bytes(), csv.as_bytes());
            proof {
                encode_utf8_decode_utf8(t@);
                encode_utf8_decode_utf8(csv@);
            }
            same
        },
    }
}

/// The comma-separated fields of a prediction request, checked against the
/// model's feature count.
pub fn invocation_fields_of(content_type: Option<&str>, body: &[u8], n_features: usize) -> (r:
    Result<Vec<String>, InvocationError>)
    ensures
        r matches Ok(f) ==> invocation_fields(opt_text(content_type), body@, n_features as nat)
            == Ok::<Seq<Seq<char>>, InvocationError>(texts(f@)),
        r matches Err(e) ==> invocation_fields(opt_text(content_type), body@, n_features as nat)
            == Err::<Seq<Seq<char>>, InvocationError>(e),
{
    if !accepts_media_type(content_type) {
        return Err(InvocationError::UnsupportedMediaType);
    }
    let text = match utf8_text(body) {
        Some(t) => t,
        None => return Err(InvocationError::NotUtf8),
    };
    let fields = split_commas(text);
    if fields.len() != n_features {
        return Err(InvocationError::WrongArity { expected: n_features, found: fields.len() });
    }
    Ok(fields)
}

/// The label of the class code the model predicted.
pub fn prediction_label(map: &LabelMap, code: usize) -> (r: Result<String, InvocationError>)
    ensures
        r is Ok <==> code < map@.len(),
        r matches Ok(s) ==> s@ == map@[code as int],
        r matches Err(e) ==> (e == (InvocationError::UnknownClass { code })),
{
    match map.label_of(code) {
        Some(s) => Ok(s),
        None => Err(InvocationError::UnknownClass { code }),
    }
}

/// A request whose body does not split into exactly the model's feature count
/// of fields is refused with a client-error status, so it never reaches the
/// model; a request that is let through has exactly that many fields.
pub proof fn lemma_arity_guards_prediction(ct: Option<Seq<char>>, body: Seq<u8>, n: nat)
    ensures
        split_on(decode_utf8(body), ',').len() != n ==> ((invocation_fields(ct, body, n) is Err)
            && 400 <= status_of(invocation_fields(ct, body, n)->Err_0) < 500),
        (invocation_fields(ct, body, n) is Ok) ==> (invocation_fields(ct, body, n)->Ok_0.len() == n),
{
}

} // verus!
