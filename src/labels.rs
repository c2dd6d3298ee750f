//! The mapping between class labels and the integer codes a classifier is fitted on.

use vstd::prelude::*;

verus! {

/// The character sequences held by a sequence of strings.
pub open spec fn texts(v: Seq<String>) -> Seq<Seq<char>> {
    v.map_values(|s: String| s@)
}

/// The distinct labels of `ls`, each at the position of its first appearance.
pub open spec fn distinct_in_order(ls: Seq<Seq<char>>) -> Seq<Seq<char>>
    decreases ls.len(),
{
    if ls.len() == 0 {
        Seq::empty()
    } else {
        let prev = distinct_in_order(ls.drop_last());
        if prev.contains(ls.last()) {
            prev
        } else {
            prev.push(ls.last())
        }
    }
}

/// Every label of a column has a code in the mapping built from that column,
/// the mapping holds no label twice, so distinct labels get distinct codes,
/// and it holds only labels of the column.
pub proof fn lemma_label_codes_total(ls: Seq<Seq<char>>)
    ensures
        distinct_in_order(ls).no_duplicates(),
        forall|i: int| 0 <= i < ls.len() ==> distinct_in_order(ls).contains(#[trigger] ls[i]),
        forall|x: Seq<char>| #[trigger] distinct_in_order(ls).contains(x) ==> ls.contains(x),
    decreases ls.len(),
{
    if ls.len() > 0 {
        let prev = ls.drop_last();
        lemma_label_codes_total(prev);
        let d = distinct_in_order(ls);
        assert forall|i: int| 0 <= i < ls.len() implies d.contains(#[trigger] ls[i]) by {
            if i < ls.len() - 1 {
                assert(prev[i] == ls[i]);
                let k = choose|k: int| 0 <= k < distinct_in_order(prev).len() && distinct_in_order(prev)[k] == ls[i];
                assert(d[k] == ls[i]);
            } else if !distinct_in_order(prev).contains(ls.last()) {
                assert(d[d.len() - 1] == ls.last());
            }
        }
        assert forall|x: Seq<char>| d.contains(x) implies ls.contains(x) by {
            let k = choose|k: int| 0 <= k < d.len() && d[k] == x;
            if k < distinct_in_order(prev).len() {
                assert(distinct_in_order(prev)[k] == x);
                assert(distinct_in_order(prev).contains(x));
                let j = choose|j: int| 0 <= j < prev.len() && prev[j] == x;
                assert(ls[j] == x);
            } else {
                assert(ls[ls.len() - 1] == x);
            }
        }
    }
}

/// A label failed to map to a class code.
#[derive(Debug, Clone, Copy, PartialEq, Eq, Structural)]
pub enum LabelError {
    /// The label at this position of the input is not in the mapping.
    Unknown { row: usize },
}

/// A bijection between label strings and the codes `0..len`: the code of a
/// label is its position.
#[derive(Debug)]
pub struct LabelMap {
    labels: Vec<String>,
}

impl View for LabelMap {
    type V = Seq<Seq<char>>;

    closed spec fn view(&self) -> Seq<Seq<char>> {
        texts(self.labels@)
    }
}

impl LabelMap {
    /// No label appears twice.
    pub open spec fn wf(&self) -> bool {
        self@.no_duplicates()
    }

    /// The mapping whose codes follow the order of first appearance in `labels`.
    pub fn from_labels(labels: &Vec<String>) -> (r: LabelMap)
        ensures
            r.wf(),
            r@ == distinct_in_order(texts(labels@)),
    {
        let mut m = LabelMap { labels: Vec::new() };
        let mut i: usize = 0;
        while i < labels.len()
            invariant
                i <= labels.len(),
                m.wf(),
                m@ == distinct_in_order(texts(labels@).take(i as int)),
            decreases labels.len() - i,
        {
            proof {
                let ls = texts(labels@).take(i as int + 1);
                assert(ls.drop_last() =~= texts(labels@).take(i as int));
                assert(ls.last() == labels@[i as int]@);
            }
            if m.code_of(&labels[i]).is_none() {
                m.labels.push(labels[i].clone());
                proof {
                    assert(m@ =~= distinct_in_order(texts(labels@).take(i as int)).push(
                        labels@[i as int]@,
                    ));
                }
            }
            i = i + 1;
        }
        assert(texts(labels@).take(labels.len() as int) =~= texts(labels@));
        m
    }

    /// The mapping from the given names, in order; `None` where a name repeats.
    pub fn from_names(names: Vec<String>) -> (r: Option<LabelMap>)
        ensures
            r is Some <==> texts(names@).no_duplicates(),
            r matches Some(m) ==> m@ == texts(names@) && m.wf(),
    {
        let m = LabelMap { labels: names };
        let mut i: usize = 0;
        while i < m.labels.len()
            invariant
                i <= m.labels.len(),
                m@ == texts(names@),
                forall|a: int, b: int| 0 <= a < b < i ==> m@[a] != m@[b],
            decreases m.labels.len() - i,
        {
            let mut j: usize = 0;
            while j < i
                invariant
                    j <= i < m.labels.len(),
                    m@ == texts(names@),
                    forall|a: int, b: int| 0 <= a < b < i ==> m@[a] != m@[b],
                    forall|a: int| 0 <= a < j ==> m@[a] != m@[i as int],
                decreases i - j,
            {
                if m.labels[j] == m.labels[i] {
                    assert(m@[j as int] == m@[i as int]);
                    assert(!texts(names@).no_duplicates());
                    return None;
                }
                j = j + 1;
            }
            i = i + 1;
        }
        Some(m)
    }

    /// The three Iris species, coded 0, 1 and 2.
    pub fn iris() -> (r: LabelMap)
        ensures
            r.wf(),
            r@ == seq![
                "Iris-setosa"@,
                "Iris-versicolor"@,
                "Iris-virginica"@,
            ],
    {
        proof {
            reveal_strlit("Iris-setosa");
            reveal_strlit("Iris-versicolor");
            reveal_strlit("Iris-virginica");
        }
        let mut labels: Vec<String> = Vec::new();
        labels.push("Iris-setosa".to_owned());
        labels.push("Iris-versicolor".to_owned());
        labels.push("Iris-virginica".to_owned());
        let m = LabelMap { labels };
        assert(m@[0][5] != m@[1][5]);
        assert(m@[0][5] != m@[2][5]);
        assert(m@[1][6] != m@[2][6]);
        assert(m@ =~= seq!["Iris-setosa"@, "Iris-versicolor"@, "Iris-virginica"@]);
        m
    }

    /// How many classes there are.
    pub fn len(&self) -> (r: usize)
        ensures
            r == self@.len(),
    {
        self.labels.len()
    }

    /// The code of `label`, or `None` where it is not mapped.
    pub fn code_of(&self, label: &String) -> (r: Option<usize>)
        requires
            self.wf(),
        ensures
            r is None <==> !self@.contains(label@),
            r matches Some(c) ==> c < self@.len() && self@[c as int] == label@,
    {
        let mut i: usize = 0;
        while i < self.labels.len()
            invariant
                i <= self.labels.len(),
                forall|j: int| 0 <= j < i ==> self@[j] != label@,
            decreases self.labels.len() - i,
        {
            if self.labels[i] == *label {
                assert(self@[i as int] == label@);
                return Some(i);
            }
            i = i + 1;
        }
        None
    }

    /// The label of `code`, or `None` where the code is out of range.
    pub fn label_of(&self, code: usize) -> (r: Option<String>)
        ensures
            r is Some <==> code < self@.len(),
            r matches Some(s) ==> s@ == self@[code as int],
    {
        if code < self.labels.len() {
            Some(self.labels[code].clone())
        } else {
            None
        }
    }

    /// The code of each label in turn; fails at the first label that is not mapped.
    pub fn encode(&self, labels: &Vec<String>) -> (r: Result<Vec<usize>, LabelError>)
        requires
            self.wf(),
        ensures
            r is Ok <==> forall|i: int| 0 <= i < labels@.len() ==> self@.contains(#[trigger] labels@[i]@),
            r matches Ok(codes) ==> codes@.len() == labels@.len() && forall|i: int|
                0 <= i < labels@.len() ==> (#[trigger] codes@[i]) < self@.len() && self@[codes@[i] as int]
                    == labels@[i]@,
            r matches Err(LabelError::Unknown { row }) ==> row < labels@.len() && !self@.contains(
                labels@[row as int]@,
            ) && forall|i: int| 0 <= i < row ==> self@.contains(#[trigger] labels@[i]@),
    {
        let mut codes: Vec<usize> = Vec::new();
        let mut i: usize = 0;
        while i < labels.len()
            invariant
                self.wf(),
                i <= labels.len(),
                codes@.len() == i,
                forall|j: int| 0 <= j < i ==> self@.contains(#[trigger] labels@[j]@),
                forall|j: int|
                    0 <= j < i ==> (#[trigger] codes@[j]) < self@.len() && self@[codes@[j] as int]
                        == labels@[j]@,
            decreases labels.len() - i,
        {
            match self.code_of(&labels[i]) {
                Some(c) => codes.push(c),
                None => return Err(LabelError::Unknown { row: i }),
            }
            i = i + 1;
        }
        Ok(codes)
    }
}

} // verus!
