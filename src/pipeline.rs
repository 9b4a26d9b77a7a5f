//! The feature stage of the preparation pipeline: over cleaned records it
//! builds the encodings, the derived features and the train/test split.
use vstd::prelude::*;
use crate::encoding::{is_table_of, label_encode, one_hot_encode, one_hot_of, texts, EncodingTable};
use crate::error::PrepError;
use crate::features::{company_size_score, remote_work_indicator, size_score_of, REMOTE_THRESHOLD};
use crate::records::Record;
use crate::split::{partitions_range, split, train_size};

verus! {

/// The default share of records that goes to training: four fifths.
pub const TRAIN_NUM: u64 = 4;

/// The denominator of the default training share.
pub const TRAIN_DEN: u64 = 5;

/// The job titles of a sequence of records.
pub open spec fn title_column(s: Seq<Record>) -> Seq<Seq<char>> {
    s.map_values(|r: Record| r.job_title@)
}

/// The experience levels of a sequence of records.
pub open spec fn level_column(s: Seq<Record>) -> Seq<Seq<char>> {
    s.map_values(|r: Record| r.experience_level@)
}

/// What the feature stage hands on to model training.
pub struct Prepared {
    /// The cleaned records the features were derived from.
    pub records: Vec<Record>,
    /// One one-hot vector of the job title per record.
    pub title_vectors: Vec<Vec<u8>>,
    pub title_table: EncodingTable,
    /// The label of the experience level per record.
    pub level_labels: Vec<usize>,
    pub level_table: EncodingTable,
    /// The ordinal company-size score per record.
    pub size_scores: Vec<u8>,
    /// Whether each record is fully remote.
    pub remote: Vec<bool>,
    pub train_idxs: Vec<usize>,
    pub test_idxs: Vec<usize>,
}

/// `p` holds the features of `s` and a split of its positions with a
/// training share of `num / den`.
pub open spec fn prepared_from(p: Prepared, s: Seq<Record>, num: nat, den: nat) -> bool {
    &&& p.records@ == s
    &&& is_table_of(p.title_table@, title_column(s))
    &&& p.title_vectors@.len() == s.len()
    &&& forall|i: int|
        0 <= i < s.len() ==> (#[trigger] p.title_vectors@[i])@ == one_hot_of(
            p.title_table@,
            s[i].job_title@,
        )
    &&& is_table_of(p.level_table@, level_column(s))
    &&& p.level_labels@.len() == s.len()
    &&& forall|i: int|
        0 <= i < s.len() ==> (#[trigger] p.level_labels@[i]) < p.level_table@.len()
            && p.level_table@[p.level_labels@[i] as int] == s[i].experience_level@
    &&& p.size_scores@.len() == s.len()
    &&& forall|i: int|
        0 <= i < s.len() ==> #[trigger] p.size_scores@[i] == size_score_of(s[i].company_size@)
    &&& p.remote@.len() == s.len()
    &&& forall|i: int|
        0 <= i < s.len() ==> #[trigger] p.remote@[i] == (s[i].remote_ratio == REMOTE_THRESHOLD)
    &&& p.train_idxs@.len() == train_size(s.len(), num, den)
    &&& partitions_range(p.train_idxs@, p.test_idxs@, s.len())
}

fn titles_of(records: &[Record]) -> (r: Vec<String>)
    ensures
        r@.len() == records@.len(),
        texts(r@) == title_column(records@),
{
    let mut r: Vec<String> = Vec::new();
    let mut i: usize = 0;
    while i < records.len()
        invariant
            i <= records@.len(),
            r@.len() == i,
            forall|k: int| 0 <= k < i ==> (#[trigger] r@[k])@ == records@[k].job_title@,
        decreases records@.len() - i,
    {
        r.push(records[i].job_title.clone());
        i = i + 1;
    }
    assert(texts(r@) =~= title_column(records@));
    r
}

fn levels_of(records: &[Record]) -> (r: Vec<String>)
    ensures
        r@.len() == records@.len(),
        texts(r@) == level_column(records@),
{
    let mut r: Vec<String> = Vec::new();
    let mut i: usize = 0;
    while i < records.len()
        invariant
            i <= records@.len(),
            r@.len() == i,
            forall|k: int| 0 <= k < i ==> (#[trigger] r@[k])@ == records@[k].experience_level@,
        decreases records@.len() - i,
    {
        r.push(records[i].experience_level.clone());
        i = i + 1;
    }
    assert(texts(r@) =~= level_column(records@));
    r
}

/// Derives the features of cleaned records: a one-hot encoding of the job
/// titles, a label encoding of the experience levels, the company-size scores,
/// the remote indicators, and a split of the positions seeded with `seed`
/// whose training share is `train_num / train_den`. With no records there is
/// nothing to encode (`EmptyInput`); a share outside `[0, 1]` is
/// `InvalidFraction`.
pub fn prepare(records: Vec<Record>, train_num: u64, train_den: u64, seed: u64) -> (r: Result<
    Prepared,
    PrepError,
>)
    ensures
        match r {
            Ok(p) => {
                &&& records@.len() > 0 && train_den > 0 && train_num <= train_den
                &&& prepared_from(p, records@, train_num as nat, train_den as nat)
            },
            Err(e) => if records@.len() == 0 {
                e == PrepError::EmptyInput
            } else {
                e == PrepError::InvalidFraction && (train_den == 0 || train_num > train_den)
            },
        },
{
    let titles = titles_of(records.as_slice());
    let (title_vectors, title_table) = match one_hot_encode(titles.as_slice()) {
        Ok(encoded) => encoded,
        Err(e) => {
            return Err(e);
        },
    };
    let levels = levels_of(records.as_slice());
    let (level_labels, level_table) = label_encode(levels.as_slice());
    let mut size_scores: Vec<u8> = Vec::new();
    let mut remote: Vec<bool> = Vec::new();
    let mut i: usize = 0;
    while i < records.len()
        invariant
            i <= records@.len(),
            size_scores@.len() == i,
            remote@.len() == i,
            forall|k: int|
                0 <= k < i ==> #[trigger] size_scores@[k] == size_score_of(
                    records@[k].company_size@,
                ),
            forall|k: int|
                0 <= k < i ==> #[trigger] remote@[k] == (records@[k].remote_ratio
                    == REMOTE_THRESHOLD),
        decreases records@.len() - i,
    {
        size_scores.push(company_size_score(records[i].company_size.as_str()));
        remote.push(remote_work_indicator(records[i].remote_ratio));
        i = i + 1;
    }
    let (train_idxs, test_idxs) = match split(records.len(), train_num, train_den, seed) {
        Ok(parts) => parts,
        Err(e) => {
            return Err(e);
        },
    };
    let p = Prepared {
        records,
        title_vectors,
        title_table,
        level_labels,
        level_table,
        size_scores,
        remote,
        train_idxs,
        test_idxs,
    };
    assert forall|i: int| 0 <= i < p.records@.len() implies (#[trigger] p.title_vectors@[i])@
        == one_hot_of(p.title_table@, p.records@[i].job_title@) by {
        assert(texts(titles@)[i] == p.records@[i].job_title@);
    }
    assert forall|i: int| 0 <= i < p.records@.len() implies (#[trigger] p.level_labels@[i])
        < p.level_table@.len() && p.level_table@[p.level_labels@[i] as int]
        == p.records@[i].experience_level@ by {
        assert(texts(levels@)[i] == p.records@[i].experience_level@);
    }
    Ok(p)
}

} // verus!
