//! The JSON tree the library works on: a tagged union of null, boolean,
//! number, string, array and object. Objects are ordered lists of
//! key/value entries, so a document's key order survives a round trip.
//! Numbers are carried as opaque `serde_json::Number` values: the tool
//! never reads or builds one, it only moves them around.

use vstd::prelude::*;

verus! {

/// Declares `serde_json::Number` so that it can stand in fields; the
/// library treats a number as an opaque token.
#[verifier::external_type_specification]
#[verifier::external_body]
pub struct ExNumber(serde_json::Number);

/// A JSON value. Object entries keep the order in which they were read.
#[derive(Debug, PartialEq, Eq)]
pub enum Json {
    Null,
    Bool(bool),
    Num(serde_json::Number),
    Str(String),
    Arr(Vec<Json>),
    Obj(Vec<(String, Json)>),
}

/// The mathematical shape of a JSON value: what `Json` looks like in
/// contracts.
pub enum JVal {
    Null,
    Bool(bool),
    Num(serde_json::Number),
    Str(Seq<char>),
    Arr(Seq<JVal>),
    Obj(Seq<(Seq<char>, JVal)>),
}

impl Json {
    /// The value a `Json` tree stands for.
    pub open spec fn model(self) -> JVal
        decreases self,
    {
        match self {
            Json::Null => JVal::Null,
            Json::Bool(b) => JVal::Bool(b),
            Json::Num(n) => JVal::Num(n),
            Json::Str(s) => JVal::Str(s@),
            Json::Arr(items) => JVal::Arr(
                Seq::new(
                    items@.len(),
                    |i: int|
                        if 0 <= i < items@.len() {
                            items@[i].model()
                        } else {
                            JVal::Null
                        },
                ),
            ),
            Json::Obj(entries) => JVal::Obj(
                Seq::new(
                    entries@.len(),
                    |i: int|
                        if 0 <= i < entries@.len() {
                            (entries@[i].0@, entries@[i].1.model())
                        } else {
                            (Seq::empty(), JVal::Null)
                        },
                ),
            ),
        }
    }
}

impl View for Json {
    type V = JVal;

    open spec fn view(&self) -> JVal {
        self.model()
    }
}

/// What an object's executable entry list stands for.
pub open spec fn emodel(v: Seq<(String, Json)>) -> Seq<(Seq<char>, JVal)> {
    Seq::new(v.len(), |i: int| (v[i].0@, v[i].1.model()))
}

/// What an array's executable item list stands for.
pub open spec fn amodel(v: Seq<Json>) -> Seq<JVal> {
    Seq::new(v.len(), |i: int| v[i].model())
}

/// A well-formed JSON value: no object in it, at any depth, has two entries
/// with one key. Parsed documents are always well formed, since a JSON
/// parser's maps collapse duplicate keys.
pub open spec fn jwf(v: JVal) -> bool
    decreases v,
{
    match v {
        JVal::Arr(items) => forall|i: int| 0 <= i < items.len() ==> jwf(#[trigger] items[i]),
        JVal::Obj(entries) => keys_unique(entries) && forall|i: int|
            0 <= i < entries.len() ==> jwf(#[trigger] entries[i].1),
        _ => true,
    }
}

/// Structural equivalence of JSON values: arrays agree element by element,
/// objects agree key by key whatever the order of their entries, and
/// leaves are equal.
pub open spec fn jeq(a: JVal, b: JVal) -> bool
    decreases a,
{
    match a {
        JVal::Arr(x) => b is Arr && {
            let y = b->Arr_0;
            &&& x.len() == y.len()
            &&& forall|i: int| 0 <= i < x.len() ==> jeq(#[trigger] x[i], y[i])
        },
        JVal::Obj(x) => b is Obj && {
            let y = b->Obj_0;
            &&& keys_unique(x)
            &&& keys_unique(y)
            &&& forall|k: Seq<char>| has_key(x, k) <==> has_key(y, k)
            &&& forall|i: int| 0 <= i < x.len() ==> lookup(y, (#[trigger] x[i]).0) is Some
            &&& forall|i: int|
                0 <= i < x.len() ==> jeq((#[trigger] x[i]).1, lookup(y, x[i].0)->Some_0)
        },
        _ => a == b,
    }
}

/// Every well-formed value is structurally equivalent to itself.
pub proof fn lemma_jeq_refl(v: JVal)
    requires
        jwf(v),
    ensures
        jeq(v, v),
    decreases v,
{
    match v {
        JVal::Arr(x) => {
            assert forall|i: int| 0 <= i < x.len() implies jeq(#[trigger] x[i], x[i]) by {
                lemma_jeq_refl(x[i]);
            }
        },
        JVal::Obj(x) => {
            assert forall|i: int| 0 <= i < x.len() implies lookup(x, (#[trigger] x[i]).0)
                == Some(x[i].1) by {
                lemma_lookup_at(x, x[i].0, i);
            }
            assert forall|i: int| 0 <= i < x.len() implies jeq(
                (#[trigger] x[i]).1,
                lookup(x, x[i].0)->Some_0,
            ) by {
                lemma_jeq_refl(x[i].1);
            }
        },
        _ => {},
    }
}

/// A found value is the value of some entry.
pub proof fn lemma_lookup_entry(s: Seq<(Seq<char>, JVal)>, k: Seq<char>)
    requires
        lookup(s, k) is Some,
    ensures
        exists|m: int|
            0 <= m < s.len() && (#[trigger] s[m]).0 == k && s[m].1 == lookup(s, k)->Some_0,
    decreases s.len(),
{
    if s.len() > 0 && s[0].0 != k {
        lemma_lookup_entry(s.drop_first(), k);
        let m = choose|m: int|
            0 <= m < s.drop_first().len() && (#[trigger] s.drop_first()[m]).0 == k
                && s.drop_first()[m].1 == lookup(s.drop_first(), k)->Some_0;
        assert(s[m + 1] == s.drop_first()[m]);
    }
}

/// Putting a fresh key in front keeps the keys unique.
pub proof fn lemma_cons_unique(e: (Seq<char>, JVal), s: Seq<(Seq<char>, JVal)>)
    requires
        keys_unique(s),
        !has_key(s, e.0),
    ensures
        keys_unique(seq![e] + s),
{
    let out = seq![e] + s;
    assert forall|i: int, j: int| 0 <= i < j < out.len() implies out[i].0 != out[j].0 by {
        if i == 0 {
            assert(out[j] == s[j - 1]);
            if s[j - 1].0 == e.0 {
                assert(has_key(s, e.0));
            }
        } else {
            assert(out[i] == s[i - 1] && out[j] == s[j - 1]);
        }
    }
}

/// Joining two key-disjoint entry lists keeps the keys unique.
pub proof fn lemma_concat_unique(a: Seq<(Seq<char>, JVal)>, b: Seq<(Seq<char>, JVal)>)
    requires
        keys_unique(a),
        keys_unique(b),
        forall|k: Seq<char>| !(has_key(a, k) && has_key(b, k)),
    ensures
        keys_unique(a + b),
{
    let out = a + b;
    assert forall|i: int, j: int| 0 <= i < j < out.len() implies out[i].0 != out[j].0 by {
        if i < a.len() && j >= a.len() {
            if a[i].0 == b[j - a.len()].0 {
                assert(has_key(a, a[i].0));
                assert(has_key(b, a[i].0));
            }
        }
    }
}

/// Some entry of `s` bears the key `k`.
pub open spec fn has_key(s: Seq<(Seq<char>, JVal)>, k: Seq<char>) -> bool {
    exists|i: int| 0 <= i < s.len() && s[i].0 == k
}

/// No two entries of `s` share a key.
pub open spec fn keys_unique(s: Seq<(Seq<char>, JVal)>) -> bool {
    forall|i: int, j: int| 0 <= i < j < s.len() ==> s[i].0 != s[j].0
}

/// The value of the first entry bearing `k`, if any.
pub open spec fn lookup(s: Seq<(Seq<char>, JVal)>, k: Seq<char>) -> Option<JVal>
    decreases s.len(),
{
    if s.len() == 0 {
        None
    } else if s[0].0 == k {
        Some(s[0].1)
    } else {
        lookup(s.drop_first(), k)
    }
}

/// `s` without its first entry bearing `k` (unchanged if there is none).
pub open spec fn remove_key(s: Seq<(Seq<char>, JVal)>, k: Seq<char>) -> Seq<(Seq<char>, JVal)>
    decreases s.len(),
{
    if s.len() == 0 {
        s
    } else if s[0].0 == k {
        s.drop_first()
    } else {
        seq![s[0]] + remove_key(s.drop_first(), k)
    }
}

/// `s` with the first entry bearing `k` overwritten by `(k, v)`, or with
/// `(k, v)` appended if no entry bears `k`.
pub open spec fn insert_entry(
    s: Seq<(Seq<char>, JVal)>,
    k: Seq<char>,
    v: JVal,
) -> Seq<(Seq<char>, JVal)>
    decreases s.len(),
{
    if s.len() == 0 {
        seq![(k, v)]
    } else if s[0].0 == k {
        seq![(k, v)] + s.drop_first()
    } else {
        seq![s[0]] + insert_entry(s.drop_first(), k, v)
    }
}

pub proof fn lemma_has_key_unfold(s: Seq<(Seq<char>, JVal)>, k: Seq<char>)
    requires
        s.len() > 0,
    ensures
        has_key(s, k) <==> (s[0].0 == k || has_key(s.drop_first(), k)),
{
    if has_key(s, k) && s[0].0 != k {
        let i = choose|i: int| 0 <= i < s.len() && s[i].0 == k;
        assert(s.drop_first()[i - 1].0 == k);
    }
    if has_key(s.drop_first(), k) {
        let i = choose|i: int| 0 <= i < s.drop_first().len() && s.drop_first()[i].0 == k;
        assert(s[i + 1].0 == k);
    }
}

pub proof fn lemma_lookup_has_key(s: Seq<(Seq<char>, JVal)>, k: Seq<char>)
    ensures
        lookup(s, k) is Some <==> has_key(s, k),
    decreases s.len(),
{
    if s.len() > 0 {
        lemma_has_key_unfold(s, k);
        if s[0].0 != k {
            lemma_lookup_has_key(s.drop_first(), k);
        }
    }
}

pub proof fn lemma_lookup_at(s: Seq<(Seq<char>, JVal)>, k: Seq<char>, i: int)
    requires
        keys_unique(s),
        0 <= i < s.len(),
        s[i].0 == k,
    ensures
        lookup(s, k) == Some(s[i].1),
    decreases s.len(),
{
    if i > 0 {
        assert(keys_unique(s.drop_first()));
        lemma_lookup_at(s.drop_first(), k, i - 1);
    }
}

/// Removing the first entry bearing `k`, found at index `i`, is removing
/// the element at `i`.
pub proof fn lemma_remove_key_at(s: Seq<(Seq<char>, JVal)>, k: Seq<char>, i: int)
    requires
        0 <= i < s.len(),
        s[i].0 == k,
        forall|j: int| 0 <= j < i ==> s[j].0 != k,
    ensures
        remove_key(s, k) =~= s.remove(i),
    decreases s.len(),
{
    if i > 0 {
        lemma_remove_key_at(s.drop_first(), k, i - 1);
    }
}

/// Overwriting the first entry bearing `k`, found at index `i`, is updating
/// the element at `i`.
pub proof fn lemma_insert_entry_at(s: Seq<(Seq<char>, JVal)>, k: Seq<char>, v: JVal, i: int)
    requires
        0 <= i < s.len(),
        s[i].0 == k,
        forall|j: int| 0 <= j < i ==> s[j].0 != k,
    ensures
        insert_entry(s, k, v) =~= s.update(i, (k, v)),
    decreases s.len(),
{
    if i > 0 {
        lemma_insert_entry_at(s.drop_first(), k, v, i - 1);
    }
}

pub proof fn lemma_insert_entry_absent(s: Seq<(Seq<char>, JVal)>, k: Seq<char>, v: JVal)
    requires
        !has_key(s, k),
    ensures
        insert_entry(s, k, v) =~= s.push((k, v)),
    decreases s.len(),
{
    if s.len() > 0 {
        lemma_has_key_unfold(s, k);
        lemma_insert_entry_absent(s.drop_first(), k, v);
    }
}

pub proof fn lemma_remove_key_absent(s: Seq<(Seq<char>, JVal)>, k: Seq<char>)
    requires
        !has_key(s, k),
    ensures
        remove_key(s, k) =~= s,
    decreases s.len(),
{
    if s.len() > 0 {
        lemma_has_key_unfold(s, k);
        lemma_remove_key_absent(s.drop_first(), k);
    }
}

/// How removal changes the other keys: it takes `k` out and leaves every
/// other key's presence and value alone.
pub proof fn lemma_remove_key_props(s: Seq<(Seq<char>, JVal)>, k: Seq<char>)
    requires
        keys_unique(s),
    ensures
        keys_unique(remove_key(s, k)),
        !has_key(remove_key(s, k), k),
        forall|k2: Seq<char>| k2 != k ==> (has_key(remove_key(s, k), k2) <==> has_key(s, k2)),
        forall|k2: Seq<char>| k2 != k ==> lookup(remove_key(s, k), k2) == lookup(s, k2),
        has_key(s, k) ==> remove_key(s, k).len() == s.len() - 1,
        !has_key(s, k) ==> remove_key(s, k) =~= s,
    decreases s.len(),
{
    lemma_lookup_has_key(s, k);
    if s.len() == 0 {
        assert forall|k2: Seq<char>| k2 != k && has_key(s, k2) implies has_key(
            remove_key(s, k),
            k2,
        ) by {}
    } else if s[0].0 == k {
        let r = s.drop_first();
        assert forall|k2: Seq<char>| k2 != k && has_key(s, k2) implies has_key(r, k2) by {
            lemma_has_key_unfold(s, k2);
        }
        assert forall|k2: Seq<char>| k2 != k && has_key(r, k2) implies has_key(s, k2) by {
            lemma_has_key_unfold(s, k2);
        }
        assert forall|k2: Seq<char>| k2 != k implies lookup(r, k2) == lookup(s, k2) by {}
        if !has_key(s, k) {
            assert(s[0].0 == k);
            assert(has_key(s, k));
        }
        assert forall|i: int| 0 <= i < r.len() implies r[i].0 != k by {
            assert(s[i + 1].0 != s[0].0);
        }
        if has_key(r, k) {
            let i = choose|i: int| 0 <= i < r.len() && r[i].0 == k;
            assert(false);
        }
    } else {
        let r = s.drop_first();
        assert(keys_unique(r));
        lemma_remove_key_props(r, k);
        lemma_has_key_unfold(s, k);
        let out = seq![s[0]] + remove_key(r, k);
        assert(out.drop_first() =~= remove_key(r, k));
        assert forall|i: int, j: int| 0 <= i < j < out.len() implies out[i].0 != out[j].0 by {
            if i == 0 {
                // out[j] is an entry of remove_key(r, k); its key is a key of r
                lemma_remove_key_entry_of(r, k, j - 1);
                let m = choose|m: int| 0 <= m < r.len() && r[m] == remove_key(r, k)[j - 1];
                assert(s[m + 1].0 != s[0].0);
            }
        }
        if has_key(out, k) {
            let i = choose|i: int| 0 <= i < out.len() && out[i].0 == k;
            assert(i > 0);
            assert(has_key(remove_key(r, k), k));
        }
        assert forall|k2: Seq<char>| k2 != k implies (has_key(out, k2) <==> has_key(s, k2)) by {
            lemma_has_key_unfold(out, k2);
            lemma_has_key_unfold(s, k2);
        }
        assert forall|k2: Seq<char>| k2 != k implies lookup(out, k2) == lookup(s, k2) by {
            assert(out[0] == s[0]);
            assert(out.drop_first() =~= remove_key(r, k));
            if out[0].0 == k2 {
                assert(lookup(out, k2) == Some(out[0].1));
                assert(lookup(s, k2) == Some(s[0].1));
            } else {
                assert(lookup(out, k2) == lookup(out.drop_first(), k2));
                assert(lookup(remove_key(r, k), k2) == lookup(r, k2));
                assert(lookup(s, k2) == lookup(r, k2));
            }
        }
        if has_key(s, k) {
            lemma_has_key_unfold(s, k);
        }
        if !has_key(s, k) {
            lemma_remove_key_absent(s, k);
        }
    }
}

/// Every entry of `remove_key(s, k)` is an entry of `s`.
pub proof fn lemma_remove_key_entry_of(s: Seq<(Seq<char>, JVal)>, k: Seq<char>, i: int)
    requires
        0 <= i < remove_key(s, k).len(),
    ensures
        exists|m: int| 0 <= m < s.len() && s[m] == remove_key(s, k)[i],
    decreases s.len(),
{
    if s.len() == 0 {
    } else if s[0].0 == k {
        assert(s[i + 1] == remove_key(s, k)[i]);
    } else {
        if i == 0 {
            assert(s[0] == remove_key(s, k)[0]);
        } else {
            lemma_remove_key_entry_of(s.drop_first(), k, i - 1);
            let m = choose|m: int|
                0 <= m < s.drop_first().len() && s.drop_first()[m] == remove_key(
                    s.drop_first(),
                    k,
                )[i - 1];
            assert(s[m + 1] == remove_key(s, k)[i]);
        }
    }
}

/// An owned copy of a borrowed string; handy for building keys and names.
pub fn lit(s: &str) -> (r: String)
    ensures
        r@ == s@,
{
    s.to_owned()
}

/// The index of the first entry of `entries` whose key is `key`, if any.
pub fn obj_find(entries: &Vec<(String, Json)>, key: &String) -> (r: Option<usize>)
    ensures
        match r {
            Some(i) => i < entries@.len() && entries@[i as int].0@ == key@ && (forall|j: int|
                0 <= j < i ==> entries@[j].0@ != key@),
            None => !has_key(emodel(entries@), key@),
        },
{
    let n = entries.len();
    let mut i: usize = 0;
    while i < n
        invariant
            n == entries@.len(),
            i <= n,
            forall|j: int| 0 <= j < i ==> entries@[j].0@ != key@,
        decreases n - i,
    {
        if entries[i].0 == *key {
            return Some(i);
        }
        i = i + 1;
    }
    assert forall|m: int| 0 <= m < emodel(entries@).len() implies emodel(entries@)[m].0
        != key@ by {}
    None
}

/// Takes the first entry bearing `key` out of `entries` and hands its value
/// back; leaves `entries` alone when no entry bears `key`.
pub fn obj_take(entries: &mut Vec<(String, Json)>, key: &String) -> (r: Option<Json>)
    ensures
        match r {
            Some(v) => lookup(emodel(old(entries)@), key@) == Some(v@) && emodel(final(entries)@)
                =~= remove_key(emodel(old(entries)@), key@),
            None => !has_key(emodel(old(entries)@), key@) && *final(entries) == *old(entries),
        },
{
    match obj_find(entries, key) {
        Some(i) => {
            let ghost s = emodel(entries@);
            let e = entries.remove(i);
            proof {
                lemma_lookup_at_first(s, key@, i as int);
                lemma_remove_key_at(s, key@, i as int);
                assert(emodel(entries@) =~= s.remove(i as int));
            }
            Some(e.1)
        },
        None => None,
    }
}

/// As `lemma_lookup_at`, but needing only that `i` is the first match.
pub proof fn lemma_lookup_at_first(s: Seq<(Seq<char>, JVal)>, k: Seq<char>, i: int)
    requires
        0 <= i < s.len(),
        s[i].0 == k,
        forall|j: int| 0 <= j < i ==> s[j].0 != k,
    ensures
        lookup(s, k) == Some(s[i].1),
    decreases s.len(),
{
    if i > 0 {
        lemma_lookup_at_first(s.drop_first(), k, i - 1);
    }
}

/// Overwrites the first entry bearing `key`, or appends `(key, val)` when
/// no entry bears it.
pub fn obj_insert(entries: &mut Vec<(String, Json)>, key: String, val: Json)
    ensures
        emodel(final(entries)@) =~= insert_entry(emodel(old(entries)@), key@, val@),
{
    let ghost s = emodel(entries@);
    match obj_find(entries, &key) {
        Some(i) => {
            let ghost kv = key@;
            let ghost vv = val@;
            entries.remove(i);
            entries.insert(i, (key, val));
            proof {
                lemma_insert_entry_at(s, kv, vv, i as int);
                assert(emodel(entries@) =~= s.update(i as int, (kv, vv)));
            }
        },
        None => {
            let ghost kv = key@;
            let ghost vv = val@;
            entries.push((key, val));
            proof {
                lemma_insert_entry_absent(s, kv, vv);
                assert(emodel(entries@) =~= s.push((kv, vv)));
            }
        },
    }
}

} // verus!
