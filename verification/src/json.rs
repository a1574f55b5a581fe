//! A JSON document model and recursive key sorting: object entries are
//! ordered by codepoint-lexicographic key order, arrays keep their order,
//! and sorting descends into nested values.
use vstd::prelude::*;

verus! {

/// The mathematical form of a JSON document. A number is kept as its
/// literal text, so no value is lost to rounding.
pub enum JsonModel {
    Null,
    Bool(bool),
    Number(Seq<char>),
    Text(Seq<char>),
    Array(Seq<JsonModel>),
    Object(Seq<(Seq<char>, JsonModel)>),
}

/// A JSON document: null, a boolean, a number (as its literal text), a
/// string, an array, or an object as a list of key-value entries.
pub enum JsonValue {
    Null,
    Bool(bool),
    Number(String),
    Text(String),
    Array(Vec<JsonValue>),
    Object(Vec<(String, JsonValue)>),
}

impl JsonValue {
    /// The document a value stands for.
    pub open spec fn model(self) -> JsonModel
        decreases self,
    {
        match self {
            JsonValue::Null => JsonModel::Null,
            JsonValue::Bool(b) => JsonModel::Bool(b),
            JsonValue::Number(s) => JsonModel::Number(s@),
            JsonValue::Text(s) => JsonModel::Text(s@),
            JsonValue::Array(a) => JsonModel::Array(models_of(a@)),
            JsonValue::Object(o) => JsonModel::Object(entries_of(o@)),
        }
    }
}

/// The documents a list of values stands for.
pub open spec fn models_of(a: Seq<JsonValue>) -> Seq<JsonModel>
    decreases a,
{
    Seq::new(
        a.len(),
        |i: int|
            if 0 <= i < a.len() {
                a[i].model()
            } else {
                JsonModel::Null
            },
    )
}

/// The entries a list of owned key-value pairs stands for.
pub open spec fn entries_of(o: Seq<(String, JsonValue)>) -> Seq<(Seq<char>, JsonModel)>
    decreases o,
{
    Seq::new(
        o.len(),
        |i: int|
            if 0 <= i < o.len() {
                (o[i].0@, o[i].1.model())
            } else {
                (Seq::<char>::empty(), JsonModel::Null)
            },
    )
}

impl View for JsonValue {
    type V = JsonModel;

    open spec fn view(&self) -> JsonModel {
        self.model()
    }
}

/// Codepoint-lexicographic order on keys, the order `<=` on strings.
pub open spec fn key_le(a: Seq<char>, b: Seq<char>) -> bool
    decreases a.len(),
{
    if a.len() == 0 {
        true
    } else if b.len() == 0 {
        false
    } else if (a[0] as int) < (b[0] as int) {
        true
    } else if (a[0] as int) > (b[0] as int) {
        false
    } else {
        key_le(a.drop_first(), b.drop_first())
    }
}

/// Strictly before: at or before, and different.
pub open spec fn key_lt(a: Seq<char>, b: Seq<char>) -> bool {
    key_le(a, b) && a != b
}

pub proof fn lemma_key_le_refl(a: Seq<char>)
    ensures
        key_le(a, a),
    decreases a.len(),
{
    if a.len() != 0 {
        lemma_key_le_refl(a.drop_first());
    }
}

pub proof fn lemma_key_le_total(a: Seq<char>, b: Seq<char>)
    ensures
        key_le(a, b) || key_le(b, a),
    decreases a.len(),
{
    if a.len() != 0 && b.len() != 0 && a[0] == b[0] {
        lemma_key_le_total(a.drop_first(), b.drop_first());
    }
}

pub proof fn lemma_key_le_antisym(a: Seq<char>, b: Seq<char>)
    requires
        key_le(a, b),
        key_le(b, a),
    ensures
        a == b,
    decreases a.len(),
{
    if a.len() != 0 && b.len() != 0 {
        lemma_key_le_antisym(a.drop_first(), b.drop_first());
        assert(a =~= seq![a[0]] + a.drop_first());
        assert(b =~= seq![b[0]] + b.drop_first());
    } else {
        assert(a =~= b);
    }
}

pub proof fn lemma_key_le_trans(a: Seq<char>, b: Seq<char>, c: Seq<char>)
    requires
        key_le(a, b),
        key_le(b, c),
    ensures
        key_le(a, c),
    decreases a.len(),
{
    if a.len() != 0 && b.len() != 0 && c.len() != 0 && a[0] == b[0] && b[0] == c[0] {
        lemma_key_le_trans(a.drop_first(), b.drop_first(), c.drop_first());
    }
}

/// Object entries stand in non-decreasing key order.
pub open spec fn pairs_sorted(ps: Seq<(Seq<char>, JsonModel)>) -> bool {
    forall|i: int| 0 <= i < ps.len() - 1 ==> key_le((#[trigger] ps[i]).0, ps[i + 1].0)
}

/// Insert an entry into a key-sorted list of entries, after any entries
/// with a key at or before its own.
pub open spec fn insert_pair(
    x: (Seq<char>, JsonModel),
    ps: Seq<(Seq<char>, JsonModel)>,
) -> Seq<(Seq<char>, JsonModel)>
    decreases ps.len(),
{
    if ps.len() == 0 {
        seq![x]
    } else if key_lt(x.0, ps[0].0) {
        seq![x] + ps
    } else {
        seq![ps[0]] + insert_pair(x, ps.drop_first())
    }
}

/// Sort a list of entries by key: insertion sort from the back.
pub open spec fn sort_pairs(ps: Seq<(Seq<char>, JsonModel)>) -> Seq<(Seq<char>, JsonModel)>
    decreases ps.len(),
{
    if ps.len() == 0 {
        Seq::<(Seq<char>, JsonModel)>::empty()
    } else {
        insert_pair(ps.last(), sort_pairs(ps.drop_last()))
    }
}

/// Recursive key sorting of a document: object entries are sorted by key
/// after their values are sorted; arrays keep their order but their
/// elements are sorted; all other values are unchanged.
pub open spec fn sort_model(m: JsonModel) -> JsonModel
    decreases m,
{
    match m {
        JsonModel::Array(a) => JsonModel::Array(sort_seq(a)),
        JsonModel::Object(ps) => JsonModel::Object(sort_pairs(sort_values(ps))),
        _ => m,
    }
}

/// Each element of an array, sorted.
pub open spec fn sort_seq(a: Seq<JsonModel>) -> Seq<JsonModel>
    decreases a,
{
    Seq::new(
        a.len(),
        |i: int|
            if 0 <= i < a.len() {
                sort_model(a[i])
            } else {
                JsonModel::Null
            },
    )
}

/// Each entry of an object with its value sorted, keys and order untouched.
pub open spec fn sort_values(ps: Seq<(Seq<char>, JsonModel)>) -> Seq<(Seq<char>, JsonModel)>
    decreases ps,
{
    Seq::new(
        ps.len(),
        |i: int|
            if 0 <= i < ps.len() {
                (ps[i].0, sort_model(ps[i].1))
            } else {
                (Seq::<char>::empty(), JsonModel::Null)
            },
    )
}

/// Every object of the document, at any depth, has its entries in key order.
pub open spec fn is_sorted_model(m: JsonModel) -> bool
    decreases m,
{
    match m {
        JsonModel::Array(a) => forall|i: int|
            0 <= i < a.len() ==> is_sorted_model(#[trigger] a[i]),
        JsonModel::Object(ps) => pairs_sorted(ps) && (forall|i: int|
            0 <= i < ps.len() ==> is_sorted_model((#[trigger] ps[i]).1)),
        _ => true,
    }
}

proof fn lemma_insert_pair_sorted(x: (Seq<char>, JsonModel), ps: Seq<(Seq<char>, JsonModel)>)
    requires
        pairs_sorted(ps),
    ensures
        pairs_sorted(insert_pair(x, ps)),
        insert_pair(x, ps).len() == ps.len() + 1,
        forall|j: int|
            0 <= j < insert_pair(x, ps).len() ==> (#[trigger] insert_pair(x, ps)[j]) == x
                || ps.contains(insert_pair(x, ps)[j]),
        insert_pair(x, ps).to_multiset() == ps.to_multiset().insert(x),
    decreases ps.len(),
{
    broadcast use vstd::seq_lib::group_to_multiset_ensures;
    broadcast use vstd::multiset::group_multiset_axioms;

    let r = insert_pair(x, ps);
    if ps.len() == 0 {
        assert(r =~= ps.insert(0, x));
    } else if key_lt(x.0, ps[0].0) {
        assert(r =~= ps.insert(0, x));
        assert forall|i: int| 0 <= i < r.len() - 1 implies key_le((#[trigger] r[i]).0, r[i + 1].0)
        by {
            if i > 0 {
                assert(r[i] == ps[i - 1] && r[i + 1] == ps[i]);
            }
        }
    } else {
        assert(pairs_sorted(ps.drop_first()));
        lemma_insert_pair_sorted(x, ps.drop_first());
        let rr = insert_pair(x, ps.drop_first());
        // The kept head stays at or before the head of the inserted rest.
        assert(key_le(ps[0].0, rr[0].0)) by {
            if ps.drop_first().len() == 0 || key_lt(x.0, ps.drop_first()[0].0) {
                // The inserted entry leads the rest.
                assert(rr[0] == x);
                lemma_key_le_total(x.0, ps[0].0);
                if !key_le(ps[0].0, x.0) {
                    assert(key_le(x.0, ps[0].0));
                    assert(key_lt(x.0, ps[0].0));
                }
                if key_le(ps[0].0, x.0) && !key_le(x.0, ps[0].0) {
                }
                if key_le(x.0, ps[0].0) && x.0 == ps[0].0 {
                    lemma_key_le_refl(ps[0].0);
                }
            } else {
                assert(rr[0] == ps.drop_first()[0]);
                assert(key_le(ps[0].0, ps[1].0));
            }
        }
        assert forall|i: int| 0 <= i < r.len() - 1 implies key_le((#[trigger] r[i]).0, r[i + 1].0)
        by {
            if i == 0 {
                assert(r[1] == rr[0]);
            } else {
                assert(r[i] == rr[i - 1] && r[i + 1] == rr[i]);
            }
        }
        assert forall|j: int| 0 <= j < r.len() implies (#[trigger] r[j]) == x || ps.contains(r[j])
        by {
            if j > 0 {
                assert(r[j] == rr[j - 1]);
                if rr[j - 1] != x {
                    let jj = choose|jj: int|
                        0 <= jj < ps.drop_first().len() && ps.drop_first()[jj] == rr[j - 1];
                    assert(ps[jj + 1] == rr[j - 1]);
                }
            }
        }
        assert(r.to_multiset() == ps.to_multiset().insert(x)) by {
            vstd::seq_lib::lemma_multiset_commutative(seq![ps[0]], rr);
            assert(seq![ps[0]] + ps.drop_first() =~= ps);
            vstd::seq_lib::lemma_multiset_commutative(seq![ps[0]], ps.drop_first());
            assert(r.to_multiset() =~= ps.to_multiset().insert(x));
        }
    }
}

proof fn lemma_sort_pairs_sorted(ps: Seq<(Seq<char>, JsonModel)>)
    ensures
        pairs_sorted(sort_pairs(ps)),
        sort_pairs(ps).len() == ps.len(),
        forall|j: int|
            0 <= j < sort_pairs(ps).len() ==> ps.contains(#[trigger] sort_pairs(ps)[j]),
        sort_pairs(ps).to_multiset() == ps.to_multiset(),
    decreases ps.len(),
{
    broadcast use vstd::seq_lib::group_to_multiset_ensures;

    if ps.len() == 0 {
        assert(sort_pairs(ps) =~= ps);
    }
    if ps.len() > 0 {
        assert(ps.drop_last().push(ps.last()) =~= ps);
        lemma_sort_pairs_sorted(ps.drop_last());
        lemma_insert_pair_sorted(ps.last(), sort_pairs(ps.drop_last()));
        let r = sort_pairs(ps);
        assert forall|j: int| 0 <= j < r.len() implies ps.contains(#[trigger] r[j]) by {
            if r[j] == ps.last() {
                assert(ps[ps.len() - 1] == r[j]);
            } else {
                assert(ps.drop_last().contains(r[j]));
                let jj = choose|jj: int|
                    0 <= jj < ps.drop_last().len() && ps.drop_last()[jj] == r[j];
                assert(ps[jj] == r[j]);
            }
        }
    }
}

/// In a sorted list every key stands at or before every later key.
proof fn lemma_sorted_all(ps: Seq<(Seq<char>, JsonModel)>, i: int, j: int)
    requires
        pairs_sorted(ps),
        0 <= i <= j < ps.len(),
    ensures
        key_le(ps[i].0, ps[j].0),
    decreases j - i,
{
    if i == j {
        lemma_key_le_refl(ps[i].0);
    } else {
        lemma_sorted_all(ps, i, j - 1);
        lemma_key_le_trans(ps[i].0, ps[j - 1].0, ps[j].0);
    }
}

/// Inserting an entry whose key is at or after every key of a sorted list
/// appends it.
proof fn lemma_insert_pair_at_end(s: Seq<(Seq<char>, JsonModel)>, x: (Seq<char>, JsonModel))
    requires
        pairs_sorted(s.push(x)),
    ensures
        insert_pair(x, s) =~~= s.push(x),
    decreases s.len(),
{
    if s.len() > 0 {
        assert(key_le(s[0].0, x.0)) by {
            lemma_sorted_all(s.push(x), 0, s.len() as int);
            assert(s.push(x)[0] == s[0] && s.push(x)[s.len() as int] == x);
        }
        assert(!key_lt(x.0, s[0].0)) by {
            if key_lt(x.0, s[0].0) {
                lemma_key_le_antisym(x.0, s[0].0);
            }
        }
        assert(s.drop_first().push(x) =~= s.push(x).drop_first());
        assert(pairs_sorted(s.drop_first().push(x))) by {
            let t = s.push(x).drop_first();
            assert forall|i: int| 0 <= i < t.len() - 1 implies key_le(
                (#[trigger] t[i]).0,
                t[i + 1].0,
            ) by {
                assert(t[i] == s.push(x)[i + 1] && t[i + 1] == s.push(x)[i + 2]);
            }
        }
        lemma_insert_pair_at_end(s.drop_first(), x);
        assert(insert_pair(x, s) =~~= seq![s[0]] + insert_pair(x, s.drop_first()));
        assert(seq![s[0]] + s.drop_first().push(x) =~~= s.push(x));
    }
}

/// Sorting a list whose entries are already in key order returns it
/// unchanged.
proof fn lemma_sort_pairs_of_sorted(ps: Seq<(Seq<char>, JsonModel)>)
    requires
        pairs_sorted(ps),
    ensures
        sort_pairs(ps) =~~= ps,
    decreases ps.len(),
{
    if ps.len() > 0 {
        assert(pairs_sorted(ps.drop_last())) by {
            assert forall|i: int| 0 <= i < ps.drop_last().len() - 1 implies key_le(
                (#[trigger] ps.drop_last()[i]).0,
                ps.drop_last()[i + 1].0,
            ) by {
                assert(ps.drop_last()[i] == ps[i] && ps.drop_last()[i + 1] == ps[i + 1]);
            }
        }
        lemma_sort_pairs_of_sorted(ps.drop_last());
        assert(sort_pairs(ps.drop_last()) == ps.drop_last());
        assert(ps.drop_last().push(ps.last()) =~= ps);
        lemma_insert_pair_at_end(ps.drop_last(), ps.last());
    }
}

/// What sorting returns is sorted, at every depth.
pub proof fn lemma_sort_model_sorted(m: JsonModel)
    ensures
        is_sorted_model(sort_model(m)),
    decreases m,
{
    match m {
        JsonModel::Array(a) => {
            let r = sort_model(m)->Array_0;
            assert forall|i: int| 0 <= i < r.len() implies is_sorted_model(#[trigger] r[i]) by {
                lemma_sort_model_sorted(a[i]);
            }
        },
        JsonModel::Object(ps) => {
            let mapped = sort_values(ps);
            lemma_sort_pairs_sorted(mapped);
            let r = sort_pairs(mapped);
            assert forall|i: int| 0 <= i < r.len() implies is_sorted_model(
                (#[trigger] r[i]).1,
            ) by {
                assert(mapped.contains(r[i]));
                let j = choose|j: int| 0 <= j < mapped.len() && mapped[j] == r[i];
                lemma_sort_model_sorted(ps[j].1);
            }
        },
        _ => {},
    }
}

/// Sorting a document that is sorted at every depth changes nothing.
pub proof fn lemma_sort_model_of_sorted(m: JsonModel)
    requires
        is_sorted_model(m),
    ensures
        sort_model(m) == m,
    decreases m,
{
    match m {
        JsonModel::Array(a) => {
            let r = sort_model(m)->Array_0;
            assert forall|i: int| 0 <= i < a.len() implies #[trigger] r[i] == a[i] by {
                lemma_sort_model_of_sorted(a[i]);
            }
            assert(r =~= a);
        },
        JsonModel::Object(ps) => {
            let mapped = sort_values(ps);
            assert forall|i: int| 0 <= i < ps.len() implies #[trigger] mapped[i] == ps[i] by {
                lemma_sort_model_of_sorted(ps[i].1);
            }
            assert(mapped =~= ps);
            lemma_sort_pairs_of_sorted(ps);
        },
        _ => {},
    }
}

/// Sorting is idempotent: sorting a document twice gives what sorting it
/// once gives, for every document.
pub proof fn lemma_sort_idempotent(m: JsonModel)
    ensures
        sort_model(sort_model(m)) == sort_model(m),
{
    lemma_sort_model_sorted(m);
    lemma_sort_model_of_sorted(sort_model(m));
}

/// No two entries of an object share a key.
pub open spec fn pairs_unique(ps: Seq<(Seq<char>, JsonModel)>) -> bool {
    forall|i: int, j: int| 0 <= i < j < ps.len() ==> (#[trigger] ps[i]).0 != (#[trigger] ps[j]).0
}

/// Every object of the document, at any depth, is a mapping: its keys are
/// pairwise distinct.
pub open spec fn unique_keys(m: JsonModel) -> bool
    decreases m,
{
    match m {
        JsonModel::Array(a) => forall|i: int| 0 <= i < a.len() ==> unique_keys(#[trigger] a[i]),
        JsonModel::Object(ps) => pairs_unique(ps) && (forall|i: int|
            0 <= i < ps.len() ==> unique_keys((#[trigger] ps[i]).1)),
        _ => true,
    }
}

/// Entries in non-decreasing key order with pairwise-distinct keys stand in
/// strictly ascending key order.
pub open spec fn pairs_strict(ps: Seq<(Seq<char>, JsonModel)>) -> bool {
    forall|i: int| 0 <= i < ps.len() - 1 ==> key_lt((#[trigger] ps[i]).0, ps[i + 1].0)
}

/// Strictness follows from sortedness once keys are pairwise distinct.
pub proof fn lemma_sorted_unique_strict(ps: Seq<(Seq<char>, JsonModel)>)
    requires
        pairs_sorted(ps),
        pairs_unique(ps),
    ensures
        pairs_strict(ps),
{
    assert forall|i: int| 0 <= i < ps.len() - 1 implies key_lt(
        (#[trigger] ps[i]).0,
        ps[i + 1].0,
    ) by {
        assert(ps[i].0 != ps[i + 1].0);
    }
}

proof fn lemma_sort_pairs_unique(ps: Seq<(Seq<char>, JsonModel)>)
    requires
        pairs_unique(ps),
    ensures
        pairs_unique(sort_pairs(ps)),
{
    broadcast use vstd::seq_lib::group_to_multiset_ensures;
    broadcast use vstd::multiset::group_multiset_axioms;

    lemma_sort_pairs_sorted(ps);
    let r = sort_pairs(ps);
    assert(ps.no_duplicates()) by {
        assert forall|i: int, j: int|
            0 <= i < ps.len() && 0 <= j < ps.len() && i != j implies ps[i] != ps[j] by {
            if i < j {
                assert(ps[i].0 != ps[j].0);
            } else {
                assert(ps[j].0 != ps[i].0);
            }
        }
    }
    ps.lemma_multiset_has_no_duplicates();
    r.lemma_multiset_has_no_duplicates_conv();
    assert forall|i: int, j: int| 0 <= i < j < r.len() implies (#[trigger] r[i]).0 != (
    #[trigger] r[j]).0 by {
        if r[i].0 == r[j].0 {
            assert(r[i] != r[j]);
            assert(r.contains(r[i]) && r.contains(r[j]));
            assert(ps.contains(r[i]) && ps.contains(r[j]));
            let a = choose|a: int| 0 <= a < ps.len() && ps[a] == r[i];
            let b = choose|b: int| 0 <= b < ps.len() && ps[b] == r[j];
            assert(a != b);
            if a < b {
                assert(ps[a].0 != ps[b].0);
            } else {
                assert(ps[b].0 != ps[a].0);
            }
        }
    }
}

/// Sorting keeps every object a mapping: a document whose objects have
/// pairwise-distinct keys sorts to one whose objects do too.
pub proof fn lemma_sort_preserves_unique_keys(m: JsonModel)
    requires
        unique_keys(m),
    ensures
        unique_keys(sort_model(m)),
    decreases m,
{
    match m {
        JsonModel::Array(a) => {
            let r = sort_model(m)->Array_0;
            assert forall|i: int| 0 <= i < r.len() implies unique_keys(#[trigger] r[i]) by {
                lemma_sort_preserves_unique_keys(a[i]);
            }
        },
        JsonModel::Object(ps) => {
            let mapped = sort_values(ps);
            assert(pairs_unique(mapped)) by {
                assert forall|i: int, j: int| 0 <= i < j < mapped.len() implies (
                #[trigger] mapped[i]).0 != (#[trigger] mapped[j]).0 by {
                    assert(mapped[i].0 == ps[i].0 && mapped[j].0 == ps[j].0);
                }
            }
            lemma_sort_pairs_unique(mapped);
            lemma_sort_pairs_sorted(mapped);
            let r = sort_pairs(mapped);
            assert forall|i: int| 0 <= i < r.len() implies unique_keys((#[trigger] r[i]).1) by {
                assert(mapped.contains(r[i]));
                let j = choose|j: int| 0 <= j < mapped.len() && mapped[j] == r[i];
                lemma_sort_preserves_unique_keys(ps[j].1);
            }
        },
        _ => {},
    }
}

/// Decide `key_le` on two strings.
pub fn key_le_exec(a: &str, b: &str) -> (r: bool)
    ensures
        r == key_le(a@, b@),
{
    let na = a.unicode_len();
    let nb = b.unicode_len();
    let mut i: usize = 0;
    assert(a@.subrange(0, na as int) =~= a@);
    assert(b@.subrange(0, nb as int) =~= b@);
    while i < na && i < nb
        invariant
            0 <= i <= na == a@.len(),
            i <= nb == b@.len(),
            key_le(a@, b@) == key_le(
                a@.subrange(i as int, na as int),
                b@.subrange(i as int, nb as int),
            ),
        decreases na - i,
    {
        let ca = a.get_char(i);
        let cb = b.get_char(i);
        proof {
            let sa = a@.subrange(i as int, na as int);
            let sb = b@.subrange(i as int, nb as int);
            assert(sa[0] == a@[i as int] && sb[0] == b@[i as int]);
            assert(sa.drop_first() =~= a@.subrange(i + 1, na as int));
            assert(sb.drop_first() =~= b@.subrange(i + 1, nb as int));
        }
        if (ca as u32) < (cb as u32) {
            return true;
        } else if (ca as u32) > (cb as u32) {
            return false;
        }
        i += 1;
    }
    if i >= na {
        assert(a@.subrange(i as int, na as int).len() == 0);
        true
    } else {
        assert(b@.subrange(i as int, nb as int).len() == 0);
        assert(a@.subrange(i as int, na as int).len() > 0);
        false
    }
}

proof fn lemma_insert_pair_position(
    ps: Seq<(Seq<char>, JsonModel)>,
    x: (Seq<char>, JsonModel),
    k: int,
)
    requires
        0 <= k <= ps.len(),
        forall|j: int| 0 <= j < k ==> !key_lt(x.0, (#[trigger] ps[j]).0),
        k < ps.len() ==> key_lt(x.0, ps[k].0),
    ensures
        insert_pair(x, ps) =~~= ps.subrange(0, k) + seq![x] + ps.subrange(k, ps.len() as int),
    decreases ps.len(),
{
    if k == 0 {
        if ps.len() == 0 {
            assert(insert_pair(x, ps) =~~= seq![x]);
        }
    } else {
        assert(!key_lt(x.0, ps[0].0));
        let rest = ps.drop_first();
        assert(forall|j: int| 0 <= j < k - 1 ==> !key_lt(x.0, (#[trigger] rest[j]).0)) by {
            assert(forall|j: int| 0 <= j < k - 1 ==> rest[j] == ps[j + 1]);
        }
        if k - 1 < rest.len() {
            assert(rest[k - 1] == ps[k]);
        }
        lemma_insert_pair_position(rest, x, k - 1);
        assert(rest.subrange(0, k - 1) =~= ps.subrange(1, k));
        assert(rest.subrange(k - 1, rest.len() as int) =~= ps.subrange(k, ps.len() as int));
        assert(seq![ps[0]] + (ps.subrange(1, k) + seq![x] + ps.subrange(k, ps.len() as int))
            =~~= ps.subrange(0, k) + seq![x] + ps.subrange(k, ps.len() as int));
    }
}

/// Insert an entry into a key-sorted list at its place: after every entry
/// whose key is at or before its own.
fn insert_entry(out: &mut Vec<(String, JsonValue)>, x: (String, JsonValue))
    ensures
        entries_of(final(out)@) =~~= insert_pair((x.0@, x.1@), entries_of(old(out)@)),
{
    let ghost ps = entries_of(out@);
    let ghost xm = (x.0@, x.1@);
    let n = out.len();
    let mut j: usize = 0;
    let mut at: usize = n;
    let mut found: bool = false;
    while j < n && !found
        invariant
            0 <= j <= n == out@.len(),
            ps == entries_of(out@),
            xm == (x.0@, x.1@),
            forall|jj: int| 0 <= jj < j ==> !key_lt(xm.0, (#[trigger] ps[jj]).0),
            found ==> j < n && key_lt(xm.0, ps[j as int].0) && at == j,
            !found ==> at == n,
        decreases n - j + (if found { 0int } else { 1int }),
    {
        let oj: &(String, JsonValue) = &out[j];
        assert(*oj == out@[j as int]);
        let le = key_le_exec(x.0.as_str(), oj.0.as_str());
        let eq = x.0 == oj.0;
        assert(ps[j as int].0 == out@[j as int].0@);
        assert(le == key_le(xm.0, ps[j as int].0));
        assert(eq == (xm.0 == ps[j as int].0));
        if le && !eq {
            found = true;
            at = j;
            assert(key_lt(xm.0, ps[j as int].0));
        } else {
            assert(!key_lt(xm.0, ps[j as int].0));
            j += 1;
        }
    }
    proof {
        lemma_insert_pair_position(ps, xm, at as int);
    }
    let ghost before = out@;
    out.insert(at, x);
    proof {
        assert(out@ =~= before.insert(at as int, x));
        assert(entries_of(out@) =~~= ps.subrange(0, at as int) + seq![xm] + ps.subrange(
            at as int,
            ps.len() as int,
        )) by {
            assert forall|jj: int| 0 <= jj < out@.len() implies entries_of(out@)[jj] == (
            ps.subrange(0, at as int) + seq![xm] + ps.subrange(at as int, ps.len() as int))[jj] by {
                if jj < at as int {
                    assert(out@[jj] == before[jj]);
                } else if jj == at as int {
                    assert(out@[jj] == x);
                } else {
                    assert(out@[jj] == before[jj - 1]);
                }
            }
        }
    }
}

/// Sort a document recursively by object key: object entries are ordered by
/// `key_le` after their values are sorted; arrays keep their order with each
/// element sorted; everything else is returned as it is.
pub fn sort_json(value: &JsonValue) -> (r: JsonValue)
    ensures
        r@ == sort_model(value@),
    decreases *value,
{
    match value {
        JsonValue::Null => JsonValue::Null,
        JsonValue::Bool(b) => JsonValue::Bool(*b),
        JsonValue::Number(s) => JsonValue::Number(s.clone()),
        JsonValue::Text(s) => JsonValue::Text(s.clone()),
        JsonValue::Array(arr) => {
            let ghost am = models_of(arr@);
            let mut out: Vec<JsonValue> = Vec::new();
            let mut i: usize = 0;
            while i < arr.len()
                invariant
                    0 <= i <= arr@.len(),
                    *value == JsonValue::Array(*arr),
                    am == models_of(arr@),
                    out@.len() == i,
                    forall|j: int| 0 <= j < i ==> (#[trigger] out@[j])@ == sort_model(am[j]),
                decreases arr@.len() - i,
            {
                proof {
                    assert(decreases_to!(*value => (*value)->Array_0));
                    assert((*value)->Array_0 == *arr);
                    assert(decreases_to!(*arr => arr@));
                    assert(decreases_to!(arr@ => arr@[i as int]));
                }
                let sv = sort_json(&arr[i]);
                out.push(sv);
                i += 1;
            }
            let r = JsonValue::Array(out);
            proof {
                assert(models_of(r->Array_0@) =~= sort_seq(am));
            }
            r
        },
        JsonValue::Object(o) => {
            let ghost pm = entries_of(o@);
            let mut out: Vec<(String, JsonValue)> = Vec::new();
            let mut i: usize = 0;
            assert(sort_values(pm).take(0) =~= Seq::<(Seq<char>, JsonModel)>::empty());
            while i < o.len()
                invariant
                    0 <= i <= o@.len(),
                    *value == JsonValue::Object(*o),
                    pm == entries_of(o@),
                    entries_of(out@) =~~= sort_pairs(sort_values(pm).take(i as int)),
                decreases o@.len() - i,
            {
                proof {
                    assert(decreases_to!(*value => (*value)->Object_0));
                    assert((*value)->Object_0 == *o);
                    assert(decreases_to!(*o => o@));
                    assert(decreases_to!(o@ => o@[i as int]));
                    assert(decreases_to!(o@[i as int] => o@[i as int].1));
                }
                let sv = sort_json(&o[i].1);
                let k = o[i].0.clone();
                proof {
                    assert(sv@ == sort_model(pm[i as int].1));
                    assert((k@, sv@) == sort_values(pm)[i as int]);
                    assert(sort_values(pm).take(i + 1).drop_last() =~= sort_values(pm).take(
                        i as int,
                    ));
                    assert(sort_values(pm).take(i + 1).last() == sort_values(pm)[i as int]);
                }
                insert_entry(&mut out, (k, sv));
                i += 1;
            }
            let r = JsonValue::Object(out);
            proof {
                assert(sort_values(pm).take(pm.len() as int) =~= sort_values(pm));
                assert(entries_of(r->Object_0@) =~~= sort_pairs(sort_values(pm)));
            }
            r
        },
    }
}

} // verus!
