//! The model artifact: a versioned header, the feature count, the label
//! mapping and the serialized model, as one byte string.
//!
//! Layout, all integers as 8 little-endian bytes: the magic `DTRE`, the format
//! version, the feature count, the label count, each label as its length and
//! its UTF-8 bytes, the model's length and its bytes; nothing after.

use vstd::prelude::*;
use vstd::utf8::{decode_utf8, encode_utf8, encode_utf8_decode_utf8, encode_utf8_valid_utf8, valid_utf8};
use crate::labels::{texts, LabelMap};
use crate::dataset::TrainingTable;
use crate::text::utf8_text;

verus! {

/// The format version this library writes and reads.
pub const FORMAT_VERSION: u64 = 1;

/// The four bytes every artifact starts with.
pub open spec fn magic() -> Seq<u8> {
    seq![0x44u8, 0x54u8, 0x52u8, 0x45u8]
}

/// `x` as 8 little-endian bytes.
pub open spec fn le_bytes(x: u64) -> Seq<u8> {
    Seq::new(8, |k: int| ((x >> (8 * k) as u64) & 0xff) as u8)
}

/// The integer whose little-endian bytes start `b`.
#[verifier::opaque]
pub open spec fn le_value(b: Seq<u8>) -> u64 {
    (b[0] as u64) | ((b[1] as u64) << 8u64) | ((b[2] as u64) << 16u64) | ((b[3] as u64) << 24u64) | ((
    b[4] as u64) << 32u64) | ((b[5] as u64) << 40u64) | ((b[6] as u64) << 48u64) | ((b[7] as u64)
        << 56u64)
}

/// One label: its byte length, then its UTF-8 bytes.
pub open spec fn label_bytes(l: Seq<char>) -> Seq<u8> {
    le_bytes(encode_utf8(l).len() as u64) + encode_utf8(l)
}

/// The labels, one after the other.
pub open spec fn labels_bytes(ls: Seq<Seq<char>>) -> Seq<u8>
    decreases ls.len(),
{
    if ls.len() == 0 {
        Seq::empty()
    } else {
        labels_bytes(ls.drop_last()) + label_bytes(ls.last())
    }
}

/// The artifact of a model fitted on `n` features, with the given labels and
/// serialized model.
pub open spec fn artifact_bytes(n: u64, ls: Seq<Seq<char>>, payload: Seq<u8>) -> Seq<u8> {
    magic() + le_bytes(FORMAT_VERSION) + le_bytes(n) + le_bytes(ls.len() as u64) + labels_bytes(ls)
        + le_bytes(payload.len() as u64) + payload
}

/// Why bytes are not an artifact.
#[derive(Debug, Clone, Copy, PartialEq, Eq, Structural)]
pub enum ArtifactError {
    /// The bytes do not start with the magic.
    BadMagic,
    /// The artifact was written in another format version.
    UnsupportedVersion { found: u64 },
    /// The bytes end before what the lengths announce.
    Truncated,
    /// A label is not UTF-8, or appears twice.
    BadLabel,
    /// Bytes follow the model.
    TrailingBytes,
}

/// Reads `count` labels from the front of `b`, with what follows them.
pub open spec fn parse_labels(b: Seq<u8>, count: nat) -> Result<(Seq<Seq<char>>, Seq<u8>), ArtifactError>
    decreases count,
{
    if count == 0 {
        Ok((Seq::empty(), b))
    } else if b.len() < 8 {
        Err(ArtifactError::Truncated)
    } else {
        let len = le_value(b) as int;
        let rest = b.skip(8);
        if len > rest.len() {
            Err(ArtifactError::Truncated)
        } else if !valid_utf8(rest.take(len)) {
            Err(ArtifactError::BadLabel)
        } else {
            match parse_labels(rest.skip(len), (count - 1) as nat) {
                Err(e) => Err(e),
                Ok((ls, r)) => Ok((seq![decode_utf8(rest.take(len))] + ls, r)),
            }
        }
    }
}

/// What an artifact holds: the feature count, the labels and the serialized
/// model; or why the bytes are not one.
pub open spec fn parse_artifact(b: Seq<u8>) -> Result<(u64, Seq<Seq<char>>, Seq<u8>), ArtifactError> {
    if b.len() < 4 || b.take(4) != magic() {
        Err(ArtifactError::BadMagic)
    } else if b.len() < 12 {
        Err(ArtifactError::Truncated)
    } else if le_value(b.skip(4)) != FORMAT_VERSION {
        Err(ArtifactError::UnsupportedVersion { found: le_value(b.skip(4)) })
    } else if b.len() < 28 {
        Err(ArtifactError::Truncated)
    } else {
        match parse_labels(b.skip(28), le_value(b.skip(20)) as nat) {
            Err(e) => Err(e),
            Ok((ls, rest)) => if !ls.no_duplicates() {
                Err(ArtifactError::BadLabel)
            } else if rest.len() < 8 || rest.len() - 8 < le_value(rest) {
                Err(ArtifactError::Truncated)
            } else if rest.len() - 8 > le_value(rest) {
                Err(ArtifactError::TrailingBytes)
            } else {
                Ok((le_value(b.skip(12)), ls, rest.skip(8)))
            },
        }
    }
}

/// A fitted model with what serving needs beside it: the feature count it was
/// fitted on and the labels of its class codes.
#[derive(Debug)]
pub struct ModelArtifact {
    pub n_features: u64,
    pub labels: LabelMap,
    pub payload: Vec<u8>,
}

/// `r` with `acc` put before the labels it reads.
pub open spec fn prepend(acc: Seq<Seq<char>>, r: Result<(Seq<Seq<char>>, Seq<u8>), ArtifactError>) -> Result<
    (Seq<Seq<char>>, Seq<u8>),
    ArtifactError,
> {
    match r {
        Err(e) => Err(e),
        Ok((ls, rest)) => Ok((acc + ls, rest)),
    }
}

proof fn lemma_prepend_empty(r: Result<(Seq<Seq<char>>, Seq<u8>), ArtifactError>)
    ensures
        prepend(Seq::empty(), r) == r,
{
    if let Ok((ls, rest)) = r {
        assert(Seq::<Seq<char>>::empty() + ls =~= ls);
    }
}

proof fn lemma_prepend_push(
    acc: Seq<Seq<char>>,
    x: Seq<char>,
    r: Result<(Seq<Seq<char>>, Seq<u8>), ArtifactError>,
)
    ensures
        prepend(acc, prepend(seq![x], r)) == prepend(acc.push(x), r),
{
    if let Ok((ls, rest)) = r {
        assert(acc + (seq![x] + ls) =~= acc.push(x) + ls);
    }
}

/// The little-endian bytes of `x` give back `x`, whatever follows them.
proof fn lemma_le_round_trip(x: u64, rest: Seq<u8>)
    ensures
        le_value(le_bytes(x) + rest) == x,
{
    reveal(le_value);
    let b = le_bytes(x) + rest;
    assert(b[0] == ((x >> 0u64) & 0xff) as u8);
    assert(b[1] == ((x >> 8u64) & 0xff) as u8);
    assert(b[2] == ((x >> 16u64) & 0xff) as u8);
    assert(b[3] == ((x >> 24u64) & 0xff) as u8);
    assert(b[4] == ((x >> 32u64) & 0xff) as u8);
    assert(b[5] == ((x >> 40u64) & 0xff) as u8);
    assert(b[6] == ((x >> 48u64) & 0xff) as u8);
    assert(b[7] == ((x >> 56u64) & 0xff) as u8);
    assert(((((x >> 0u64) & 0xff) as u8) as u64) | (((((x >> 8u64) & 0xff) as u8) as u64) << 8u64)
        | (((((x >> 16u64) & 0xff) as u8) as u64) << 16u64) | (((((x >> 24u64) & 0xff) as u8) as u64)
        << 24u64) | (((((x >> 32u64) & 0xff) as u8) as u64) << 32u64) | (((((x >> 40u64) & 0xff) as u8)
        as u64) << 40u64) | (((((x >> 48u64) & 0xff) as u8) as u64) << 48u64) | (((((x >> 56u64) & 0xff)
        as u8) as u64) << 56u64) == x) by (bit_vector);
}

/// Appends the little-endian bytes of `x`.
fn push_u64(out: &mut Vec<u8>, x: u64)
    ensures
        final(out)@ == old(out)@ + le_bytes(x),
{
    let mut k: u64 = 0;
    while k < 8
        invariant
            k <= 8,
            out@ == old(out)@ + le_bytes(x).take(k as int),
        decreases 8 - k,
    {
        out.push(((x >> (8 * k)) & 0xff) as u8);
        assert(out@ =~= old(out)@ + le_bytes(x).take(k as int + 1));
        k = k + 1;
    }
    assert(le_bytes(x).take(8) =~= le_bytes(x));
}

/// Appends `b`.
fn push_all(out: &mut Vec<u8>, b: &[u8])
    ensures
        final(out)@ == old(out)@ + b@,
{
    let mut i: usize = 0;
    while i < b.len()
        invariant
            i <= b.len(),
            out@ == old(out)@ + b@.take(i as int),
        decreases b.len() - i,
    {
        out.push(b[i]);
        assert(out@ =~= old(out)@ + b@.take(i as int + 1));
        i = i + 1;
    }
    assert(b@.take(b@.len() as int) =~= b@);
}

/// The integer whose little-endian bytes stand at `pos`.
fn read_u64(b: &[u8], pos: usize) -> (r: u64)
    requires
        pos + 8 <= b@.len(),
    ensures
        r == le_value(b@.skip(pos as int)),
{
    reveal(le_value);
    (b[pos] as u64) | ((b[pos + 1] as u64) << 8u64) | ((b[pos + 2] as u64) << 16u64) | ((b[pos + 3] as u64)
        << 24u64) | ((b[pos + 4] as u64) << 32u64) | ((b[pos + 5] as u64) << 40u64) | ((b[pos + 6] as u64)
        << 48u64) | ((b[pos + 7] as u64) << 56u64)
}

/// A copy of the bytes from `start` to `end`.
fn copy_range(b: &[u8], start: usize, end: usize) -> (r: Vec<u8>)
    requires
        start <= end <= b@.len(),
    ensures
        r@ == b@.subrange(start as int, end as int),
{
    let mut out: Vec<u8> = Vec::new();
    push_all(&mut out, &b[start..end]);
    assert(out@ =~= b@.subrange(start as int, end as int));
    out
}

impl ModelArtifact {
    /// The artifact of a model fitted on a training table.
    pub fn from_training(table: TrainingTable, payload: Vec<u8>) -> (r: ModelArtifact)
        ensures
            r.n_features == table.n_features as u64,
            r.labels@ == table.labels@,
            r.payload@ == payload@,
    {
        ModelArtifact { n_features: table.n_features as u64, labels: table.labels, payload }
    }
    /// The artifact's bytes.
    pub fn to_bytes(&self) -> (r: Vec<u8>)
        ensures
            r@ == artifact_bytes(self.n_features, self.labels@, self.payload@),
    {
        let mut out: Vec<u8> = Vec::new();
        out.push(0x44u8);
        out.push(0x54u8);
        out.push(0x52u8);
        out.push(0x45u8);
        assert(out@ =~= magic());
        push_u64(&mut out, FORMAT_VERSION);
        push_u64(&mut out, self.n_features);
        let count = self.labels.len();
        push_u64(&mut out, count as u64);
        let ghost head = out@;
        let ghost ls = self.labels@;
        let mut k: usize = 0;
        while k < count
            invariant
                count == ls.len(),
                ls == self.labels@,
                k <= count,
                out@ == head + labels_bytes(ls.take(k as int)),
            decreases count - k,
        {
            let label = match self.labels.label_of(k) {
                Some(l) => l,
                None => {
                    assert(false);
                    String::new()
                },
            };
            let bytes = label.as_str().as_bytes();
            push_u64(&mut out, bytes.len() as u64);
            push_all(&mut out, bytes);
            proof {
                let t = ls.take(k as int + 1);
                assert(t.drop_last() =~= ls.take(k as int));
                assert(t.last() == label@);
                assert(out@ =~= head + labels_bytes(t));
            }
            k = k + 1;
        }
        assert(ls.take(count as int) =~= ls);
        push_u64(&mut out, self.payload.len() as u64);
        push_all(&mut out, self.payload.as_slice());
        out
    }

    /// The artifact that `b` holds, or why it holds none.
    pub fn from_bytes(b: &[u8]) -> (r: Result<ModelArtifact, ArtifactError>)
        ensures
            r matches Ok(a) ==> a.labels.wf() && parse_artifact(b@) == Ok::<
                (u64, Seq<Seq<char>>, Seq<u8>),
                ArtifactError,
            >((a.n_features, a.labels@, a.payload@)),
            r matches Err(e) ==> parse_artifact(b@) == Err::<(u64, Seq<Seq<char>>, Seq<u8>), ArtifactError>(e),
    {
        if b.len() < 4 || b[0] != 0x44u8 || b[1] != 0x54u8 || b[2] != 0x52u8 || b[3] != 0x45u8 {
            proof {
                if b@.len() >= 4 {
                    assert(b@.take(4)[0] == b@[0] && b@.take(4)[1] == b@[1]);
                    assert(b@.take(4)[2] == b@[2] && b@.take(4)[3] == b@[3]);
                }
            }
            return Err(ArtifactError::BadMagic);
        }
        assert(b@.take(4) =~= magic());
        if b.len() < 12 {
            return Err(ArtifactError::Truncated);
        }
        let version = read_u64(b, 4);
        if version != FORMAT_VERSION {
            return Err(ArtifactError::UnsupportedVersion { found: version });
        }
        if b.len() < 28 {
            return Err(ArtifactError::Truncated);
        }
        let n_features = read_u64(b, 12);
        let count = read_u64(b, 20);
        let ghost whole = parse_labels(b@.skip(28), count as nat);
        let mut names: Vec<String> = Vec::new();
        let mut pos: usize = 28;
        let mut k: u64 = 0;
        proof {
            lemma_prepend_empty(whole);
            assert(texts(names@) =~= Seq::<Seq<char>>::empty());
        }
        while k < count
            invariant
                b@.len() >= 28,
                b@.take(4) == magic(),
                le_value(b@.skip(4)) == FORMAT_VERSION,
                count == le_value(b@.skip(20)),
                n_features == le_value(b@.skip(12)),
                whole == parse_labels(b@.skip(28), count as nat),
                28 <= pos <= b@.len(),
                k <= count,
                whole == prepend(texts(names@), parse_labels(b@.skip(pos as int), (count - k) as nat)),
            decreases count - k,
        {
            let ghost rest = b@.skip(pos as int);
            if b.len() - pos < 8 {
                return Err(ArtifactError::Truncated);
            }
            let len = read_u64(b, pos);
            assert(le_value(rest) == len);
            if len > (b.len() - pos - 8) as u64 {
                return Err(ArtifactError::Truncated);
            }
            let start = pos + 8;
            let end = start + len as usize;
            let piece = copy_range(b, start, end);
            proof {
                assert(rest.skip(8).take(len as int) =~= piece@);
                assert(rest.skip(8).skip(len as int) =~= b@.skip(end as int));
            }
            let text = match utf8_text(piece.as_slice()) {
                Some(t) => t,
                None => return Err(ArtifactError::BadLabel),
            };
            let ghost before = names@;
            names.push(text.to_owned());
            proof {
                lemma_prepend_push(texts(before), text@, parse_labels(b@.skip(end as int), (count - k - 1) as nat));
                assert(texts(names@) =~= texts(before).push(text@));
            }
            pos = end;
            k = k + 1;
        }
        assert(texts(names@) + Seq::<Seq<char>>::empty() =~= texts(names@));
        let labels = match LabelMap::from_names(names) {
            Some(m) => m,
            None => return Err(ArtifactError::BadLabel),
        };
        let ghost rest = b@.skip(pos as int);
        if b.len() - pos < 8 {
            return Err(ArtifactError::Truncated);
        }
        let plen = read_u64(b, pos);
        assert(le_value(rest) == plen);
        let avail = (b.len() - pos - 8) as u64;
        if avail < plen {
            return Err(ArtifactError::Truncated);
        }
        if avail > plen {
            return Err(ArtifactError::TrailingBytes);
        }
        let payload = copy_range(b, pos + 8, b.len());
        assert(payload@ =~= rest.skip(8));
        Ok(ModelArtifact { n_features, labels, payload })
    }
}

proof fn lemma_labels_bytes_front(ls: Seq<Seq<char>>)
    requires
        ls.len() > 0,
    ensures
        labels_bytes(ls) == label_bytes(ls[0]) + labels_bytes(ls.drop_first()),
    decreases ls.len(),
{
    if ls.len() == 1 {
        assert(ls.drop_last() =~= Seq::<Seq<char>>::empty());
        assert(ls.drop_first() =~= Seq::<Seq<char>>::empty());
        assert(labels_bytes(ls) =~= label_bytes(ls[0]) + labels_bytes(ls.drop_first()));
    } else {
        let front = ls.drop_last();
        lemma_labels_bytes_front(front);
        assert(front.drop_first() =~= ls.drop_first().drop_last());
        assert(ls.drop_first().last() == ls.last());
        assert(labels_bytes(ls) =~= label_bytes(ls[0]) + labels_bytes(ls.drop_first()));
    }
}

#[verifier::rlimit(40)]
proof fn lemma_parse_labels(ls: Seq<Seq<char>>, tail: Seq<u8>)
    requires
        forall|i: int| 0 <= i < ls.len() ==> encode_utf8(#[trigger] ls[i]).len() <= u64::MAX,
    ensures
        parse_labels(labels_bytes(ls) + tail, ls.len()) == Ok::<(Seq<Seq<char>>, Seq<u8>), ArtifactError>(
            (ls, tail),
        ),
    decreases ls.len(),
{
    if ls.len() == 0 {
        assert(ls =~= Seq::<Seq<char>>::empty());
        assert(labels_bytes(ls) + tail =~= tail);
    } else {
        let enc = encode_utf8(ls[0]);
        let more = ls.drop_first();
        lemma_labels_bytes_front(ls);
        assert forall|i: int| 0 <= i < more.len() implies encode_utf8(#[trigger] more[i]).len() <= u64::MAX by {
            assert(more[i] == ls[i + 1]);
        }
        lemma_parse_labels(more, tail);
        let b = labels_bytes(ls) + tail;
        let after = enc + (labels_bytes(more) + tail);
        assert(b =~= le_bytes(enc.len() as u64) + after);
        lemma_le_round_trip(enc.len() as u64, after);
        assert(b.skip(8) =~= after);
        assert(after.take(enc.len() as int) =~= enc);
        assert(after.skip(enc.len() as int) =~= labels_bytes(more) + tail);
        encode_utf8_valid_utf8(ls[0]);
        encode_utf8_decode_utf8(ls[0]);
        let len = le_value(b) as int;
        assert(len == enc.len());
        assert(b.skip(8).take(len) == enc);
        assert(valid_utf8(b.skip(8).take(len)));
        assert(b.skip(8).skip(len) == labels_bytes(more) + tail);
        assert(seq![ls[0]] + more =~= ls);
    }
}

/// Reading back the bytes of an artifact gives back its feature count, its
/// labels and its serialized model unchanged.
pub proof fn lemma_artifact_round_trip(n: u64, ls: Seq<Seq<char>>, payload: Seq<u8>)
    requires
        ls.no_duplicates(),
        ls.len() <= u64::MAX,
        payload.len() <= u64::MAX,
        forall|i: int| 0 <= i < ls.len() ==> encode_utf8(#[trigger] ls[i]).len() <= u64::MAX,
    ensures
        parse_artifact(artifact_bytes(n, ls, payload)) == Ok::<
            (u64, Seq<Seq<char>>, Seq<u8>),
            ArtifactError,
        >((n, ls, payload)),
{
    let tail = le_bytes(payload.len() as u64) + payload;
    let lb = labels_bytes(ls) + tail;
    let b = artifact_bytes(n, ls, payload);
    assert(b =~= magic() + (le_bytes(FORMAT_VERSION) + (le_bytes(n) + (le_bytes(ls.len() as u64) + lb))));
    assert(b.take(4) =~= magic());
    assert(b.skip(4) =~= le_bytes(FORMAT_VERSION) + (le_bytes(n) + (le_bytes(ls.len() as u64) + lb)));
    lemma_le_round_trip(FORMAT_VERSION, le_bytes(n) + (le_bytes(ls.len() as u64) + lb));
    assert(b.skip(12) =~= le_bytes(n) + (le_bytes(ls.len() as u64) + lb));
    lemma_le_round_trip(n, le_bytes(ls.len() as u64) + lb);
    assert(b.skip(20) =~= le_bytes(ls.len() as u64) + lb);
    lemma_le_round_trip(ls.len() as u64, lb);
    assert(b.skip(28) =~= lb);
    lemma_parse_labels(ls, tail);
    lemma_le_round_trip(payload.len() as u64, payload);
    assert(tail.skip(8) =~= payload);
}

} // verus!
