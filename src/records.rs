//! Job-salary records, their identity key, case folding of the experience
//! level, and deduplication by identity key.
use vstd::prelude::*;

verus! {

/// One job-salary observation.
#[derive(Clone, Debug, PartialEq, Eq)]
pub struct Record {
    pub work_year: u32,
    pub job_title: String,
    /// A category compared without regard to case once normalised.
    pub experience_level: String,
    /// A company-size code such as `S`, `M` or `L`.
    pub company_size: String,
    pub company_location: String,
    /// The share of remote work, as a percentage.
    pub remote_ratio: u32,
    /// Whole US dollars; `None` where the salary is missing.
    pub salary_in_usd: Option<u64>,
}

/// The fields that decide whether two records describe the same observation.
pub open spec fn identity_key(r: Record) -> (u32, Seq<char>, Seq<char>) {
    (r.work_year, r.job_title@, r.company_location@)
}

/// An earlier record of `s` has the identity key of `s[i]`.
pub open spec fn seen_before(s: Seq<Record>, i: int) -> bool {
    exists|j: int| 0 <= j < i && #[trigger] identity_key(s[j]) == identity_key(s[i])
}

/// The records of `s` whose identity key no earlier record has, in order.
pub open spec fn dedupe_seq(s: Seq<Record>) -> Seq<Record>
    decreases s.len(),
{
    if s.len() == 0 {
        s
    } else if seen_before(s, s.len() - 1) {
        dedupe_seq(s.drop_last())
    } else {
        dedupe_seq(s.drop_last()).push(s.last())
    }
}

/// The positions of the records that `dedupe_seq` keeps, in order.
pub open spec fn first_indices(s: Seq<Record>) -> Seq<int>
    decreases s.len(),
{
    if s.len() == 0 {
        Seq::empty()
    } else if seen_before(s, s.len() - 1) {
        first_indices(s.drop_last())
    } else {
        first_indices(s.drop_last()).push(s.len() - 1)
    }
}

/// The lower-case form of a text, as the standard library defines it.
pub uninterp spec fn lowercase_of(s: Seq<char>) -> Seq<char>;

/// Relies on `str::to_lowercase`: the lower-case form of `s`, which depends
/// on its characters alone.
#[verifier::external_body]
fn to_lowercase(s: &str) -> (r: String)
    ensures
        r@ == lowercase_of(s@),
{
    s.to_lowercase()
}

/// `new` is `old` with its experience level case-folded.
pub open spec fn is_normalized_from(new: Record, old: Record) -> bool {
    &&& new.experience_level@ == lowercase_of(old.experience_level@)
    &&& new.work_year == old.work_year
    &&& new.job_title == old.job_title
    &&& new.company_size == old.company_size
    &&& new.company_location == old.company_location
    &&& new.remote_ratio == old.remote_ratio
    &&& new.salary_in_usd == old.salary_in_usd
}

fn copy_record(r: &Record) -> (c: Record)
    ensures
        c == *r,
{
    Record {
        work_year: r.work_year,
        job_title: r.job_title.clone(),
        experience_level: r.experience_level.clone(),
        company_size: r.company_size.clone(),
        company_location: r.company_location.clone(),
        remote_ratio: r.remote_ratio,
        salary_in_usd: r.salary_in_usd,
    }
}

/// Case-folds the experience level of every record, in place.
pub fn normalize_levels(records: &mut Vec<Record>)
    ensures
        final(records)@.len() == old(records)@.len(),
        forall|i: int|
            0 <= i < old(records)@.len() ==> is_normalized_from(
                #[trigger] final(records)@[i],
                old(records)@[i],
            ),
{
    let mut out: Vec<Record> = Vec::new();
    let mut i: usize = 0;
    while i < records.len()
        invariant
            i <= records@.len(),
            records@ == old(records)@,
            out@.len() == i,
            forall|m: int| 0 <= m < i ==> is_normalized_from(#[trigger] out@[m], records@[m]),
        decreases records@.len() - i,
    {
        let r = &records[i];
        out.push(
            Record {
                work_year: r.work_year,
                job_title: r.job_title.clone(),
                experience_level: to_lowercase(r.experience_level.as_str()),
                company_size: r.company_size.clone(),
                company_location: r.company_location.clone(),
                remote_ratio: r.remote_ratio,
                salary_in_usd: r.salary_in_usd,
            },
        );
        i = i + 1;
    }
    *records = out;
}

fn same_identity(a: &Record, b: &Record) -> (r: bool)
    ensures
        r == (identity_key(*a) == identity_key(*b)),
{
    a.work_year == b.work_year && a.job_title == b.job_title && a.company_location
        == b.company_location
}

proof fn lemma_seen_before_prefix(s: Seq<Record>, n: int, i: int)
    requires
        0 <= i < n <= s.len(),
    ensures
        seen_before(s.take(n), i) == seen_before(s, i),
{
    if seen_before(s, i) {
        let j = choose|j: int| 0 <= j < i && #[trigger] identity_key(s[j]) == identity_key(s[i]);
        assert(identity_key(s.take(n)[j]) == identity_key(s.take(n)[i]));
    }
    if seen_before(s.take(n), i) {
        let j = choose|j: int|
            0 <= j < i && #[trigger] identity_key(s.take(n)[j]) == identity_key(s.take(n)[i]);
        assert(identity_key(s[j]) == identity_key(s[i]));
    }
}

/// Keeps the first record of each identity key, in input order.
pub fn dedupe(records: &[Record]) -> (r: Vec<Record>)
    ensures
        r@ == dedupe_seq(records@),
{
    let mut out: Vec<Record> = Vec::new();
    let mut i: usize = 0;
    while i < records.len()
        invariant
            i <= records@.len(),
            out@ == dedupe_seq(records@.take(i as int)),
        decreases records@.len() - i,
    {
        let mut seen = false;
        let mut j: usize = 0;
        while j < i
            invariant
                j <= i < records@.len(),
                seen == exists|k: int|
                    0 <= k < j && #[trigger] identity_key(records@[k]) == identity_key(
                        records@[i as int],
                    ),
            decreases i - j,
        {
            if same_identity(&records[j], &records[i]) {
                seen = true;
            }
            j = j + 1;
        }
        let ghost pre = records@.take(i + 1);
        assert(pre.drop_last() =~= records@.take(i as int));
        proof {
            lemma_seen_before_prefix(records@, i + 1, i as int);
            if seen_before(records@, i as int) {
                let k = choose|k: int|
                    0 <= k < i && #[trigger] identity_key(records@[k]) == identity_key(
                        records@[i as int],
                    );
                assert(identity_key(records@[k]) == identity_key(records@[i as int]));
            }
        }
        if !seen {
            out.push(copy_record(&records[i]));
        }
        i = i + 1;
    }
    assert(records@.take(records@.len() as int) =~= records@);
    out
}

/// No two records of `s` share an identity key.
pub open spec fn keys_distinct(s: Seq<Record>) -> bool {
    forall|a: int, b: int|
        0 <= a < b < s.len() ==> identity_key(#[trigger] s[a]) != identity_key(#[trigger] s[b])
}

proof fn lemma_first_indices(s: Seq<Record>)
    ensures
        first_indices(s).len() == dedupe_seq(s).len(),
        dedupe_seq(s).len() <= s.len(),
        forall|k: int|
            0 <= k < first_indices(s).len() ==> {
                &&& 0 <= #[trigger] first_indices(s)[k] < s.len()
                &&& dedupe_seq(s)[k] == s[first_indices(s)[k]]
                &&& !seen_before(s, first_indices(s)[k])
            },
        forall|a: int, b: int|
            0 <= a < b < first_indices(s).len() ==> #[trigger] first_indices(s)[a]
                < #[trigger] first_indices(s)[b],
        forall|i: int|
            0 <= i < s.len() && !seen_before(s, i) ==> #[trigger] first_indices(s).contains(i),
    decreases s.len(),
{
    if s.len() > 0 {
        let t = s.drop_last();
        lemma_first_indices(t);
        assert(s.take(s.len() - 1) =~= t);
        assert forall|i: int| 0 <= i < t.len() implies #[trigger] seen_before(t, i) == seen_before(
            s,
            i,
        ) by {
            lemma_seen_before_prefix(s, s.len() - 1, i);
        }
        let idx = first_indices(s);
        let tidx = first_indices(t);
        assert forall|i: int| 0 <= i < s.len() && !seen_before(s, i) implies #[trigger] idx.contains(
            i,
        ) by {
            if i < s.len() - 1 {
                assert(!seen_before(t, i));
                assert(tidx.contains(i));
                let k = choose|k: int| 0 <= k < tidx.len() && tidx[k] == i;
                assert(idx[k] == i);
            } else {
                assert(idx[idx.len() - 1] == i);
            }
        }
        assert forall|k: int| 0 <= k < idx.len() implies !seen_before(s, #[trigger] idx[k]) by {
            if k < tidx.len() {
                assert(idx[k] == tidx[k]);
                assert(!seen_before(t, tidx[k]));
            }
        }
    }
}

proof fn lemma_dedupe_of_distinct(t: Seq<Record>)
    requires
        keys_distinct(t),
    ensures
        dedupe_seq(t) == t,
    decreases t.len(),
{
    if t.len() > 0 {
        let u = t.drop_last();
        assert forall|a: int, b: int| 0 <= a < b < u.len() implies identity_key(#[trigger] u[a])
            != identity_key(#[trigger] u[b]) by {
            assert(u[a] == t[a] && u[b] == t[b]);
        }
        lemma_dedupe_of_distinct(u);
        if seen_before(t, t.len() - 1) {
            let j = choose|j: int|
                0 <= j < t.len() - 1 && #[trigger] identity_key(t[j]) == identity_key(
                    t[t.len() - 1],
                );
            assert(identity_key(t[j]) != identity_key(t[t.len() - 1]));
        }
        assert(u.push(t.last()) =~= t);
    }
}

/// Deduplication keeps, in input order, exactly the first record of each
/// identity key. So its result is no longer than its input, no two of its
/// records share an identity key, and deduplicating it again changes nothing.
pub proof fn lemma_dedupe_laws(s: Seq<Record>)
    ensures
        dedupe_seq(dedupe_seq(s)) == dedupe_seq(s),
        dedupe_seq(s).len() <= s.len(),
        keys_distinct(dedupe_seq(s)),
        first_indices(s).len() == dedupe_seq(s).len(),
        forall|k: int|
            0 <= k < first_indices(s).len() ==> {
                &&& 0 <= #[trigger] first_indices(s)[k] < s.len()
                &&& dedupe_seq(s)[k] == s[first_indices(s)[k]]
                &&& !seen_before(s, first_indices(s)[k])
            },
        forall|a: int, b: int|
            0 <= a < b < first_indices(s).len() ==> #[trigger] first_indices(s)[a]
                < #[trigger] first_indices(s)[b],
        forall|i: int|
            0 <= i < s.len() && !seen_before(s, i) ==> #[trigger] first_indices(s).contains(i),
{
    lemma_first_indices(s);
    let out = dedupe_seq(s);
    let idx = first_indices(s);
    assert forall|a: int, b: int| 0 <= a < b < out.len() implies identity_key(#[trigger] out[a])
        != identity_key(#[trigger] out[b]) by {
        assert(idx[a] < idx[b]);
        assert(!seen_before(s, idx[b]));
        if identity_key(s[idx[a]]) == identity_key(s[idx[b]]) {
            assert(identity_key(s[idx[a]]) == identity_key(s[idx[b]]));
        }
    }
    lemma_dedupe_of_distinct(out);
}

/// Records that agree position by position on their identity keys are
/// deduplicated alike: the same positions are kept. In particular case
/// folding the experience level, which is no part of the key, before or after
/// deduplication makes no difference.
pub proof fn lemma_dedupe_same_keys(s: Seq<Record>, t: Seq<Record>)
    requires
        s.len() == t.len(),
        forall|i: int| 0 <= i < s.len() ==> identity_key(#[trigger] s[i]) == identity_key(t[i]),
    ensures
        first_indices(s) == first_indices(t),
        dedupe_seq(t).len() == dedupe_seq(s).len(),
        forall|k: int|
            0 <= k < dedupe_seq(s).len() ==> #[trigger] dedupe_seq(t)[k] == t[first_indices(s)[k]]
                && dedupe_seq(s)[k] == s[first_indices(s)[k]] && 0 <= first_indices(s)[k] < s.len(),
    decreases s.len(),
{
    lemma_first_indices(s);
    lemma_first_indices(t);
    if s.len() > 0 {
        let s2 = s.drop_last();
        let t2 = t.drop_last();
        lemma_dedupe_same_keys(s2, t2);
        let n = s.len() - 1;
        if seen_before(s, n) {
            let j = choose|j: int| 0 <= j < n && #[trigger] identity_key(s[j]) == identity_key(s[n]);
            assert(identity_key(t[j]) == identity_key(t[n]));
        }
        if seen_before(t, n) {
            let j = choose|j: int| 0 <= j < n && #[trigger] identity_key(t[j]) == identity_key(t[n]);
            assert(identity_key(s[j]) == identity_key(s[n]));
        }
    }
}

/// Case-folds the experience levels, then keeps the first record of each
/// identity key: the result is the deduplication of `records`, each record
/// with its experience level case-folded.
pub fn clean(records: Vec<Record>) -> (r: Vec<Record>)
    ensures
        r@.len() == dedupe_seq(records@).len(),
        forall|k: int|
            0 <= k < r@.len() ==> is_normalized_from(#[trigger] r@[k], dedupe_seq(records@)[k]),
{
    let mut normalized = records;
    normalize_levels(&mut normalized);
    let r = dedupe(normalized.as_slice());
    proof {
        lemma_dedupe_same_keys(records@, normalized@);
    }
    r
}

} // verus!
