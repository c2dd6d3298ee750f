//! Turning the rows of a headerless CSV file into a training table: the first
//! columns are features, the last one is the class label.

use vstd::prelude::*;
use crate::labels::{distinct_in_order, lemma_label_codes_total, texts, LabelError, LabelMap};

verus! {

/// csv's own error value.
#[verifier::external_type_specification]
#[verifier::external_body]
pub struct ExCsvError(csv::Error);

/// The records that csv reads from the bytes, with headers off and the default
/// comma delimiter, or `None` where it reports an error.
pub uninterp spec fn csv_records(b: Seq<u8>) -> Option<Seq<Seq<Seq<char>>>>;

/// The text of each field of each row.
pub open spec fn rows_text(v: Seq<Vec<String>>) -> Seq<Seq<Seq<char>>> {
    v.map_values(|r: Vec<String>| texts(r@))
}

/// Relies on csv's `Reader::records`, with `has_headers(false)` and the other
/// options at their defaults: every record of the input, each as its fields,
/// or the first error it meets (bad UTF-8, quoting, records of unequal length).
#[verifier::external_body]
fn read_records(b: &[u8]) -> (r: Result<Vec<Vec<String>>, csv::Error>)
    ensures
        r is Ok <==> csv_records(b@) is Some,
        r matches Ok(rows) ==> rows_text(rows@) == csv_records(b@).unwrap(),
{
    let mut reader = csv::ReaderBuilder::new().has_headers(false).from_reader(b);
    reader.records().map(|rec| rec.map(|fields| fields.iter().map(|f| f.to_owned()).collect())).collect()
}

/// Why a training file could not be turned into a training table.
#[derive(Debug, Clone, Copy, PartialEq, Eq, Structural)]
pub enum DatasetError {
    /// The CSV reader refused the input.
    Malformed,
    /// This row does not hold the feature columns and one label column.
    WrongWidth { row: usize, found: usize },
    /// The feature at this row and column is not a number.
    NotANumber { row: usize, column: usize },
    /// The label of this row has no class code.
    UnknownLabel { row: usize },
}

/// A training table: the feature fields of each row, as text, and the class
/// code of each row under `labels`.
#[derive(Debug)]
pub struct TrainingTable {
    pub n_features: usize,
    pub features: Vec<Vec<String>>,
    pub codes: Vec<usize>,
    pub labels: LabelMap,
}

/// Every row holds `n` features and a label.
pub open spec fn widths_ok(rows: Seq<Seq<Seq<char>>>, n: nat) -> bool {
    forall|i: int| 0 <= i < rows.len() ==> (#[trigger] rows[i]).len() == n + 1
}

/// The label column: the field after the `n` features of each row.
pub open spec fn label_column(rows: Seq<Seq<Seq<char>>>, n: nat) -> Seq<Seq<char>> {
    rows.map_values(|r: Seq<Seq<char>>| r[n as int])
}

/// The feature columns: the first `n` fields of each row.
pub open spec fn feature_columns(rows: Seq<Seq<Seq<char>>>, n: nat) -> Seq<Seq<Seq<char>>> {
    rows.map_values(|r: Seq<Seq<char>>| r.take(n as int))
}

/// `WrongWidth` names the first row of the wrong width.
pub open spec fn width_error(rows: Seq<Seq<Seq<char>>>, n: nat, e: DatasetError) -> bool {
    match e {
        DatasetError::WrongWidth { row, found } => row < rows.len() && found == rows[row as int].len()
            && found != n + 1 && widths_ok(rows.take(row as int), n),
        _ => false,
    }
}

/// `t` holds the features of `rows` and codes its labels under its mapping.
pub open spec fn table_of(rows: Seq<Seq<Seq<char>>>, n: nat, t: TrainingTable) -> bool {
    &&& widths_ok(rows, n)
    &&& t.n_features == n
    &&& rows_text(t.features@) == feature_columns(rows, n)
    &&& t.labels.wf()
    &&& t.codes@.len() == rows.len()
    &&& forall|i: int|
        0 <= i < rows.len() ==> (#[trigger] t.codes@[i]) < t.labels@.len() && t.labels@[t.codes@[i] as int]
            == rows[i][n as int]
}

/// The outcome of preparing `rows` with a mapping built from their own labels.
pub open spec fn prepared(rows: Seq<Seq<Seq<char>>>, n: nat, r: Result<TrainingTable, DatasetError>) -> bool {
    match r {
        Ok(t) => table_of(rows, n, t) && t.labels@ == distinct_in_order(label_column(rows, n)),
        Err(e) => !widths_ok(rows, n) && width_error(rows, n, e),
    }
}

/// The feature fields and the label of each row; fails at the first row of
/// the wrong width.
fn split_columns(rows: &Vec<Vec<String>>, n_features: usize) -> (r: Result<
    (Vec<Vec<String>>, Vec<String>),
    DatasetError,
>)
    ensures
        r is Ok <==> widths_ok(rows_text(rows@), n_features as nat),
        r matches Ok((f, l)) ==> rows_text(f@) == feature_columns(rows_text(rows@), n_features as nat)
            && texts(l@) == label_column(rows_text(rows@), n_features as nat),
        r matches Err(e) ==> width_error(rows_text(rows@), n_features as nat, e),
{
    let ghost rs = rows_text(rows@);
    let ghost n = n_features as nat;
    let mut features: Vec<Vec<String>> = Vec::new();
    let mut labels: Vec<String> = Vec::new();
    let mut i: usize = 0;
    while i < rows.len()
        invariant
            rs == rows_text(rows@),
            n == n_features as nat,
            i <= rows.len(),
            widths_ok(rs.take(i as int), n),
            rows_text(features@) == feature_columns(rs.take(i as int), n),
            texts(labels@) == label_column(rs.take(i as int), n),
        decreases rows.len() - i,
    {
        let row = &rows[i];
        assert(rs[i as int] == texts(row@));
        if row.len() == 0 || row.len() - 1 != n_features {
            return Err(DatasetError::WrongWidth { row: i, found: row.len() });
        }
        let mut fs: Vec<String> = Vec::new();
        let mut j: usize = 0;
        while j < n_features
            invariant
                rs == rows_text(rows@),
                n == n_features as nat,
                i < rows.len(),
                row == rows@[i as int],
                widths_ok(rs.take(i as int), n),
                rows_text(features@) == feature_columns(rs.take(i as int), n),
                texts(labels@) == label_column(rs.take(i as int), n),
                j <= n_features,
                row.len() == n_features + 1,
                texts(fs@) == texts(row@).take(j as int),
            decreases n_features - j,
        {
            let c = row[j].clone();
            assert(c@ == texts(row@)[j as int]);
            let ghost before = fs@;
            fs.push(c);
            proof {
                assert(texts(before).len() == j);
                assert(before.len() == j);
                assert(fs@ == before.push(c));
                assert(texts(fs@).len() == j + 1);
                assert(texts(fs@)[j as int] == c@);
                assert forall|k: int| 0 <= k < j implies texts(fs@)[k] == texts(row@)[k] by {
                    assert(texts(fs@)[k] == fs@[k]@);
                    assert(fs@[k] == before[k]);
                    assert(texts(before)[k] == before[k]@);
                }
                assert(texts(fs@) =~= texts(row@).take(j as int + 1));
            }
            j = j + 1;
        }
        let ghost fs_text = texts(fs@);
        let ghost f_before = features@;
        let ghost l_before = labels@;
        features.push(fs);
        let lab = row[n_features].clone();
        assert(lab@ == texts(row@)[n_features as int]);
        labels.push(lab);
        proof {
            let t1 = rs.take(i as int + 1);
            assert(t1 =~= rs.take(i as int).push(rs[i as int]));
            assert(rows_text(f_before).len() == i);
            assert(f_before.len() == i);
            assert(texts(l_before).len() == i);
            assert(l_before.len() == i);
            assert forall|k: int| 0 <= k <= i implies rows_text(features@)[k] == feature_columns(t1, n)[k] by {
                if k < i {
                    assert(features@[k] == f_before[k]);
                    assert(rows_text(f_before)[k] == texts(f_before[k]@));
                }
            }
            assert forall|k: int| 0 <= k <= i implies texts(labels@)[k] == label_column(t1, n)[k] by {
                if k < i {
                    assert(labels@[k] == l_before[k]);
                    assert(texts(l_before)[k] == l_before[k]@);
                }
            }
            assert(rows_text(features@) =~= feature_columns(t1, n));
            assert(texts(labels@) =~= label_column(t1, n));
        }
        i = i + 1;
    }
    assert(rs.take(rows.len() as int) =~= rs);
    Ok((features, labels))
}

/// The training table of `rows`, each holding `n_features` features and then a
/// label; the class codes follow the order in which labels first appear.
pub fn prepare_training(rows: &Vec<Vec<String>>, n_features: usize) -> (r: Result<TrainingTable, DatasetError>)
    ensures
        prepared(rows_text(rows@), n_features as nat, r),
{
    let (features, column) = match split_columns(rows, n_features) {
        Ok(p) => p,
        Err(e) => return Err(e),
    };
    proof {
        assert(texts(column@).len() == column@.len());
        assert(rows_text(rows@).len() == rows@.len());
        assert(label_column(rows_text(rows@), n_features as nat).len() == rows@.len());
    }
    let labels = LabelMap::from_labels(&column);
    proof {
        lemma_label_codes_total(texts(column@));
    }
    match labels.encode(&column) {
        Ok(codes) => {
            let t = TrainingTable { n_features, features, codes, labels };
            proof {
                let lc = label_column(rows_text(rows@), n_features as nat);
                assert forall|i: int| 0 <= i < rows@.len() implies (#[trigger] t.codes@[i]) < t.labels@.len()
                    && t.labels@[t.codes@[i] as int] == rows_text(rows@)[i][n_features as int] by {
                    assert(texts(column@)[i] == column@[i]@);
                    assert(lc[i] == rows_text(rows@)[i][n_features as int]);
                }
            }
            assert(table_of(rows_text(rows@), n_features as nat, t));
            Ok(t)
        },
        Err(LabelError::Unknown { row }) => {
            proof {
                assert(texts(column@)[row as int] == column@[row as int]@);
            }
            Err(DatasetError::UnknownLabel { row })
        },
    }
}

/// The training table of `rows` with the class codes of a fixed mapping; a
/// label outside the mapping is an error rather than a silent default.
pub fn prepare_training_with(rows: &Vec<Vec<String>>, n_features: usize, labels: LabelMap) -> (r:
    Result<TrainingTable, DatasetError>)
    requires
        labels.wf(),
    ensures
        r matches Ok(t) ==> table_of(rows_text(rows@), n_features as nat, t) && t.labels@ == labels@,
        r matches Err(DatasetError::UnknownLabel { row }) ==> widths_ok(rows_text(rows@), n_features as nat)
            && row < rows@.len() && !labels@.contains(rows_text(rows@)[row as int][n_features as int])
            && forall|i: int| 0 <= i < row ==> labels@.contains(#[trigger] rows_text(rows@)[i][n_features as int]),
        r is Err && !(r matches Err(DatasetError::UnknownLabel { .. })) ==> !widths_ok(rows_text(rows@), n_features as nat)
            && width_error(rows_text(rows@), n_features as nat, r->Err_0),
        widths_ok(rows_text(rows@), n_features as nat) && (forall|i: int| 0 <= i < rows@.len()
            ==> labels@.contains(#[trigger] rows_text(rows@)[i][n_features as int])) ==> r is Ok,
{
    let (features, column) = match split_columns(rows, n_features) {
        Ok(p) => p,
        Err(e) => return Err(e),
    };
    proof {
        assert(texts(column@).len() == column@.len());
        assert(rows_text(rows@).len() == rows@.len());
        assert(label_column(rows_text(rows@), n_features as nat).len() == rows@.len());
    }
    let ghost lc = label_column(rows_text(rows@), n_features as nat);
    match labels.encode(&column) {
        Ok(codes) => {
            let t = TrainingTable { n_features, features, codes, labels };
            proof {
                let lc = label_column(rows_text(rows@), n_features as nat);
                assert forall|i: int| 0 <= i < rows@.len() implies (#[trigger] t.codes@[i]) < t.labels@.len()
                    && t.labels@[t.codes@[i] as int] == rows_text(rows@)[i][n_features as int] by {
                    assert(texts(column@)[i] == column@[i]@);
                    assert(lc[i] == rows_text(rows@)[i][n_features as int]);
                }
            }
            assert(table_of(rows_text(rows@), n_features as nat, t));
            Ok(t)
        },
        Err(LabelError::Unknown { row }) => {
            proof {
                assert(texts(column@)[row as int] == column@[row as int]@);
                assert forall|i: int| 0 <= i < row implies labels@.contains(
                    #[trigger] rows_text(rows@)[i][n_features as int],
                ) by {
                    assert(texts(column@)[i] == column@[i]@);
                    assert(lc[i] == rows_text(rows@)[i][n_features as int]);
                    assert(labels@.contains(column@[i]@));
                }
            }
            Err(DatasetError::UnknownLabel { row })
        },
    }
}

/// The training table of a headerless CSV text; malformed input, a row of the
/// wrong width, anything the reader refuses fails the whole table.
pub fn parse_training_csv(bytes: &[u8], n_features: usize) -> (r: Result<TrainingTable, DatasetError>)
    ensures
        r == Err::<TrainingTable, DatasetError>(DatasetError::Malformed) <==> csv_records(bytes@) is None,
        csv_records(bytes@) matches Some(rows) ==> prepared(rows, n_features as nat, r),
{
    match read_records(bytes) {
        Ok(rows) => prepare_training(&rows, n_features),
        Err(_) => Err(DatasetError::Malformed),
    }
}

/// Preparing the same rows twice gives the same outcome: the same error, or
/// tables with the same features, the same label mapping and the same codes.
pub proof fn lemma_preparation_deterministic(
    rows: Seq<Seq<Seq<char>>>,
    n: nat,
    r1: Result<TrainingTable, DatasetError>,
    r2: Result<TrainingTable, DatasetError>,
)
    requires
        prepared(rows, n, r1),
        prepared(rows, n, r2),
    ensures
        r1 is Ok <==> r2 is Ok,
        r1 is Err ==> r1 == r2,
        r1 is Ok ==> rows_text(r1->Ok_0.features@) == rows_text(r2->Ok_0.features@) && r1->Ok_0.labels@
            == r2->Ok_0.labels@ && r1->Ok_0.codes@ == r2->Ok_0.codes@ && r1->Ok_0.n_features
            == r2->Ok_0.n_features,
{
    match (r1, r2) {
        (Ok(t1), Ok(t2)) => {
            assert forall|i: int| 0 <= i < rows.len() implies t1.codes@[i] == t2.codes@[i] by {
                let a = t1.codes@[i] as int;
                let b = t2.codes@[i] as int;
                assert(t1.labels@[a] == t2.labels@[b]);
            }
            assert(t1.codes@ =~= t2.codes@);
        },
        (Err(e1), Err(e2)) => {
            if let (DatasetError::WrongWidth { row: a, .. }, DatasetError::WrongWidth { row: b, .. }) = (e1, e2) {
                if a < b {
                    assert(rows.take(b as int)[a as int] == rows[a as int]);
                } else if b < a {
                    assert(rows.take(a as int)[b as int] == rows[b as int]);
                }
            }
        },
        _ => {},
    }
}

} // verus!
