//! Categorical encodings: a sorted table of the distinct values of a column,
//! one-hot vectors and dense labels over it.
use vstd::prelude::*;
use crate::error::PrepError;
use crate::order::{
    lemma_text_lt_asymmetric, lemma_text_lt_irreflexive, lemma_text_lt_total,
    lemma_text_lt_transitive, str_eq, str_lt, strictly_sorted, text_lt,
};

verus! {

/// The texts of a sequence of strings.
pub open spec fn texts(v: Seq<String>) -> Seq<Seq<char>> {
    v.map_values(|s: String| s@)
}

/// `cats` is the table of `values`: its entries are the distinct values,
/// each once, in ascending order.
pub open spec fn is_table_of(cats: Seq<Seq<char>>, values: Seq<Seq<char>>) -> bool {
    &&& strictly_sorted(cats)
    &&& forall|i: int| 0 <= i < values.len() ==> cats.contains(#[trigger] values[i])
    &&& forall|j: int| 0 <= j < cats.len() ==> values.contains(#[trigger] cats[j])
}

/// The one-hot vector of `v` over the table `cats`.
pub open spec fn one_hot_of(cats: Seq<Seq<char>>, v: Seq<char>) -> Seq<u8> {
    Seq::new(cats.len(), |j: int| if cats[j] == v { 1u8 } else { 0u8 })
}

/// The distinct values of a categorical column in ascending order; the
/// position of a value is its index.
pub struct EncodingTable {
    categories: Vec<String>,
}

impl View for EncodingTable {
    type V = Seq<Seq<char>>;

    closed spec fn view(&self) -> Seq<Seq<char>> {
        texts(self.categories@)
    }
}

impl EncodingTable {
    /// The table of `values`.
    pub fn build(values: &[String]) -> (t: EncodingTable)
        ensures
            is_table_of(t@, texts(values@)),
    {
        let ghost vals = texts(values@);
        let mut cats: Vec<String> = Vec::new();
        let mut i: usize = 0;
        while i < values.len()
            invariant
                i <= values.len(),
                vals == texts(values@),
                is_table_of(texts(cats@), vals.take(i as int)),
            decreases values.len() - i,
        {
            let v = &values[i];
            let ghost old_cats = texts(cats@);
            let mut j: usize = 0;
            while j < cats.len() && str_lt(cats[j].as_str(), v.as_str())
                invariant
                    j <= cats.len(),
                    old_cats == texts(cats@),
                    forall|k: int| 0 <= k < j ==> text_lt(#[trigger] old_cats[k], v@),
                decreases cats.len() - j,
            {
                j = j + 1;
            }
            assert(vals.take(i + 1) =~= vals.take(i as int).push(v@));
            if j < cats.len() && cats[j] == *v {
                assert(vals.take(i + 1)[i as int] == v@);
                assert forall|k: int| 0 <= k < i + 1 implies old_cats.contains(
                    #[trigger] vals.take(i + 1)[k],
                ) by {
                    if k < i {
                        assert(vals.take(i + 1)[k] == vals.take(i as int)[k]);
                    } else {
                        assert(old_cats[j as int] == v@);
                    }
                }
                assert forall|m: int| 0 <= m < old_cats.len() implies vals.take(i + 1).contains(
                    #[trigger] old_cats[m],
                ) by {
                    let k = choose|k: int| 0 <= k < i && vals.take(i as int)[k] == old_cats[m];
                    assert(vals.take(i + 1)[k] == old_cats[m]);
                }
            } else {
                proof {
                    if j < cats.len() {
                        lemma_text_lt_total(old_cats[j as int], v@);
                    }
                }
                cats.insert(j, v.clone());
                let ghost new_cats = texts(cats@);
                assert(new_cats =~= old_cats.insert(j as int, v@));
                assert forall|a: int, b: int| 0 <= a < b < new_cats.len() implies text_lt(
                    #[trigger] new_cats[a],
                    #[trigger] new_cats[b],
                ) by {
                    if b < j {
                    } else if a < j && b == j {
                    } else if a < j {
                        assert(text_lt(old_cats[a], v@));
                        assert(text_lt(v@, old_cats[j as int]));
                        lemma_text_lt_transitive(old_cats[a], v@, old_cats[j as int]);
                        if b - 1 > j {
                            lemma_text_lt_transitive(old_cats[a], old_cats[j as int], old_cats[b - 1]);
                        }
                    } else if a == j {
                        if b - 1 > j {
                            lemma_text_lt_transitive(v@, old_cats[j as int], old_cats[b - 1]);
                        }
                    } else {
                        assert(new_cats[a] == old_cats[a - 1]);
                        assert(new_cats[b] == old_cats[b - 1]);
                    }
                }
                assert forall|k: int| 0 <= k < i + 1 implies new_cats.contains(
                    #[trigger] vals.take(i + 1)[k],
                ) by {
                    if k < i {
                        assert(vals.take(i + 1)[k] == vals.take(i as int)[k]);
                        let m = choose|m: int| 0 <= m < old_cats.len() && old_cats[m] == vals.take(i as int)[k];
                        if m < j {
                            assert(new_cats[m] == old_cats[m]);
                        } else {
                            assert(new_cats[m + 1] == old_cats[m]);
                        }
                    } else {
                        assert(new_cats[j as int] == v@);
                    }
                }
                assert forall|m: int| 0 <= m < new_cats.len() implies vals.take(i + 1).contains(
                    #[trigger] new_cats[m],
                ) by {
                    if m == j {
                        assert(vals.take(i + 1)[i as int] == v@);
                    } else {
                        let om = if m < j { m } else { m - 1 };
                        assert(new_cats[m] == old_cats[om]);
                        let k = choose|k: int| 0 <= k < i && vals.take(i as int)[k] == old_cats[om];
                        assert(vals.take(i + 1)[k] == old_cats[om]);
                    }
                }
            }
            i = i + 1;
        }
        assert(vals.take(values.len() as int) =~= vals);
        EncodingTable { categories: cats }
    }

    /// The number of distinct values.
    pub fn len(&self) -> (n: usize)
        ensures
            n == self@.len(),
    {
        self.categories.len()
    }

    /// The index of `value`, if the table holds it.
    pub fn index_of(&self, value: &str) -> (r: Option<usize>)
        ensures
            match r {
                Some(j) => j < self@.len() && self@[j as int] == value@,
                None => !self@.contains(value@),
            },
    {
        let mut j: usize = 0;
        while j < self.categories.len()
            invariant
                j <= self.categories.len(),
                forall|k: int| 0 <= k < j ==> #[trigger] self@[k] != value@,
            decreases self.categories.len() - j,
        {
            if str_eq(self.categories[j].as_str(), value) {
                return Some(j);
            }
            j = j + 1;
        }
        None
    }

    /// The value at `index`: what a label or the set position of a one-hot
    /// vector stands for.
    pub fn category(&self, index: usize) -> (r: Option<&String>)
        ensures
            match r {
                Some(s) => index < self@.len() && s@ == self@[index as int],
                None => index >= self@.len(),
            },
    {
        if index < self.categories.len() {
            Some(&self.categories[index])
        } else {
            None
        }
    }
}


/// One-hot encodes a categorical column: the table of its distinct values,
/// and for each value a vector as long as the table, with a single 1 at the
/// value's index. An empty column has no table and is refused.
pub fn one_hot_encode(values: &[String]) -> (r: Result<(Vec<Vec<u8>>, EncodingTable), PrepError>)
    ensures
        match r {
            Ok((vectors, table)) => {
                &&& values@.len() > 0
                &&& is_table_of(table@, texts(values@))
                &&& vectors@.len() == values@.len()
                &&& forall|i: int|
                    0 <= i < values@.len() ==> (#[trigger] vectors@[i])@ == one_hot_of(
                        table@,
                        values@[i]@,
                    )
            },
            Err(e) => values@.len() == 0 && e == PrepError::EmptyInput,
        },
{
    if values.len() == 0 {
        return Err(PrepError::EmptyInput);
    }
    let table = EncodingTable::build(values);
    let k = table.len();
    let mut vectors: Vec<Vec<u8>> = Vec::new();
    let mut i: usize = 0;
    while i < values.len()
        invariant
            i <= values.len(),
            k == table@.len(),
            vectors@.len() == i,
            forall|m: int| 0 <= m < i ==> (#[trigger] vectors@[m])@ == one_hot_of(table@, values@[m]@),
        decreases values.len() - i,
    {
        let mut vector: Vec<u8> = Vec::new();
        let mut j: usize = 0;
        while j < k
            invariant
                j <= k,
                i < values.len(),
                k == table@.len(),
                vector@ =~= one_hot_of(table@, values@[i as int]@).take(j as int),
            decreases k - j,
        {
            let cat = table.categories[j].as_str();
            if str_eq(cat, values[i].as_str()) {
                vector.push(1u8);
            } else {
                vector.push(0u8);
            }
            j = j + 1;
        }
        assert(vector@ =~= one_hot_of(table@, values@[i as int]@));
        vectors.push(vector);
        i = i + 1;
    }
    Ok((vectors, table))
}

/// Label-encodes a categorical column: the table of its distinct values, and
/// for each value its index in the table.
pub fn label_encode(values: &[String]) -> (r: (Vec<usize>, EncodingTable))
    ensures
        is_table_of(r.1@, texts(values@)),
        r.0@.len() == values@.len(),
        forall|i: int|
            0 <= i < values@.len() ==> (#[trigger] r.0@[i]) < r.1@.len() && r.1@[r.0@[i] as int]
                == values@[i]@,
{
    let table = EncodingTable::build(values);
    let mut labels: Vec<usize> = Vec::new();
    let mut i: usize = 0;
    while i < values.len()
        invariant
            i <= values.len(),
            is_table_of(table@, texts(values@)),
            labels@.len() == i,
            forall|m: int|
                0 <= m < i ==> (#[trigger] labels@[m]) < table@.len() && table@[labels@[m] as int]
                    == values@[m]@,
        decreases values.len() - i,
    {
        assert(table@.contains(texts(values@)[i as int]));
        match table.index_of(values[i].as_str()) {
            Some(j) => labels.push(j),
            None => {
                assert(false);
                labels.push(0);
            },
        }
        i = i + 1;
    }
    (labels, table)
}

/// Every one-hot vector over the table of a column is as long as the table
/// has distinct values and holds exactly one 1, every other entry being 0;
/// the table's value at the position of that 1 is the encoded value.
pub proof fn lemma_one_hot_decodes(cats: Seq<Seq<char>>, values: Seq<Seq<char>>, i: int)
    requires
        is_table_of(cats, values),
        0 <= i < values.len(),
    ensures
        one_hot_of(cats, values[i]).len() == cats.len(),
        exists|j: int|
            0 <= j < cats.len() && #[trigger] one_hot_of(cats, values[i])[j] == 1 && cats[j]
                == values[i] && forall|k: int|
                0 <= k < cats.len() && k != j ==> one_hot_of(cats, values[i])[k] == 0,
{
    let v = values[i];
    assert(cats.contains(v));
    let j = choose|j: int| 0 <= j < cats.len() && cats[j] == v;
    assert forall|k: int| 0 <= k < cats.len() && k != j implies one_hot_of(cats, v)[k] == 0 by {
        if k < j {
            assert(text_lt(cats[k], cats[j]));
        } else {
            assert(text_lt(cats[j], cats[k]));
        }
        lemma_text_lt_irreflexive(v);
    }
    assert(one_hot_of(cats, v)[j] == 1);
}

proof fn lemma_sorted_same_members(s: Seq<Seq<char>>, t: Seq<Seq<char>>)
    requires
        strictly_sorted(s),
        strictly_sorted(t),
        forall|x: Seq<char>| s.contains(x) <==> t.contains(x),
    ensures
        s == t,
    decreases s.len(),
{
    if s.len() == 0 {
        if t.len() > 0 {
            assert(t.contains(t[0]));
        }
        assert(s =~= t);
    } else {
        let x = s.last();
        assert(s.contains(x));
        let p = choose|p: int| 0 <= p < t.len() && t[p] == x;
        let y = t.last();
        if p < t.len() - 1 {
            assert(t.contains(y));
            let q = choose|q: int| 0 <= q < s.len() && s[q] == y;
            assert(text_lt(t[p], t[t.len() - 1]));
            if q < s.len() - 1 {
                assert(text_lt(s[q], s[s.len() - 1]));
                lemma_text_lt_asymmetric(x, y);
            } else {
                lemma_text_lt_irreflexive(x);
            }
        }
        let s2 = s.drop_last();
        let t2 = t.drop_last();
        assert forall|z: Seq<char>| s2.contains(z) implies t2.contains(z) by {
            let a = choose|a: int| 0 <= a < s2.len() && s2[a] == z;
            assert(s.contains(z));
            let b = choose|b: int| 0 <= b < t.len() && t[b] == z;
            if b == t.len() - 1 {
                assert(text_lt(s[a], s[s.len() - 1]));
                lemma_text_lt_irreflexive(z);
            }
            assert(t2[b] == z);
        }
        assert forall|z: Seq<char>| t2.contains(z) implies s2.contains(z) by {
            let b = choose|b: int| 0 <= b < t2.len() && t2[b] == z;
            assert(t.contains(z));
            let a = choose|a: int| 0 <= a < s.len() && s[a] == z;
            if a == s.len() - 1 {
                assert(text_lt(t[b], t[t.len() - 1]));
                lemma_text_lt_irreflexive(z);
            }
            assert(s2[a] == z);
        }
        lemma_sorted_same_members(s2, t2);
        assert(s =~= s2.push(x));
        assert(t =~= t2.push(y));
    }
}

/// The table of a column depends only on which values occur in it: columns
/// with the same values, in any order and with any repetition, have the same
/// table.
pub proof fn lemma_table_ignores_order(
    cats1: Seq<Seq<char>>,
    values1: Seq<Seq<char>>,
    cats2: Seq<Seq<char>>,
    values2: Seq<Seq<char>>,
)
    requires
        is_table_of(cats1, values1),
        is_table_of(cats2, values2),
        forall|x: Seq<char>| values1.contains(x) <==> values2.contains(x),
    ensures
        cats1 == cats2,
{
    assert forall|x: Seq<char>| cats1.contains(x) <==> cats2.contains(x) by {
        if cats1.contains(x) {
            let j = choose|j: int| 0 <= j < cats1.len() && cats1[j] == x;
            assert(values1.contains(cats1[j]));
            let i = choose|i: int| 0 <= i < values2.len() && values2[i] == x;
            assert(cats2.contains(values2[i]));
        }
        if cats2.contains(x) {
            let j = choose|j: int| 0 <= j < cats2.len() && cats2[j] == x;
            assert(values2.contains(cats2[j]));
            let i = choose|i: int| 0 <= i < values1.len() && values1[i] == x;
            assert(cats1.contains(values1[i]));
        }
    }
    lemma_sorted_same_members(cats1, cats2);
}

} // verus!
