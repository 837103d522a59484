//! The document tree and its read-only accessors.
use vstd::prelude::*;

verus! {

/// A node of a parsed document.
///
/// An object's members are kept in order of first insertion; no two have
/// equal keys (a key inserted again replaces the value: last write wins).
#[derive(Debug)]
pub enum Json {
    Null,
    Boolean(bool),
    /// A numeral, as written in the input.
    Number(String),
    Strings(String),
    Array(Vec<Json>),
    Object(Vec<(String, Json)>),
}

/// The mathematical value of a [`Json`] node.
pub enum JsonModel {
    Null,
    Boolean(bool),
    Number(Seq<char>),
    Str(Seq<char>),
    Array(Seq<JsonModel>),
    Object(Seq<(Seq<char>, JsonModel)>),
}

/// Accessor failure.
#[derive(Debug, Clone, PartialEq, Eq)]
pub enum AccessError {
    /// Text was asked of an array or an object.
    NotPrimitive,
}

/// The index of the first member of `es` from `i` on with key `k`, or -1.
pub open spec fn key_index_from(es: Seq<(Seq<char>, JsonModel)>, k: Seq<char>, i: int) -> int
    decreases es.len() - i,
{
    if !(0 <= i < es.len()) {
        -1
    } else if es[i].0 == k {
        i
    } else {
        key_index_from(es, k, i + 1)
    }
}

pub open spec fn key_index(es: Seq<(Seq<char>, JsonModel)>, k: Seq<char>) -> int {
    key_index_from(es, k, 0)
}

/// No two members have equal keys.
pub open spec fn keys_unique(es: Seq<(Seq<char>, JsonModel)>) -> bool {
    forall|i: int, j: int| 0 <= i < j < es.len() ==> es[i].0 != es[j].0
}

/// Every object of `j` has unique keys, and arrays and objects nest at most `b`
/// deep.
pub open spec fn well_formed(j: JsonModel, b: nat) -> bool
    decreases j,
{
    match j {
        JsonModel::Array(items) => b > 0 && forall|i: int|
            0 <= i < items.len() ==> well_formed(#[trigger] items[i], (b - 1) as nat),
        JsonModel::Object(es) => b > 0 && keys_unique(es) && forall|i: int|
            0 <= i < es.len() ==> well_formed(#[trigger] es[i].1, (b - 1) as nat),
        _ => true,
    }
}

/// `es` with `k` bound to `v`: an existing binding is replaced in place,
/// otherwise the member is appended.
pub open spec fn insert_member(es: Seq<(Seq<char>, JsonModel)>, k: Seq<char>, v: JsonModel) -> Seq<(Seq<char>, JsonModel)> {
    let i = key_index(es, k);
    if i >= 0 {
        es.update(i, (k, v))
    } else {
        es.push((k, v))
    }
}

/// What `path(name)` gives on a node.
pub open spec fn path_model(j: JsonModel, name: Seq<char>) -> JsonModel {
    match j {
        JsonModel::Object(es) => if key_index(es, name) >= 0 {
            es[key_index(es, name)].1
        } else {
            JsonModel::Null
        },
        _ => JsonModel::Null,
    }
}

/// What `atIndex(i)` gives on a node.
pub open spec fn at_index_model(j: JsonModel, i: int) -> JsonModel {
    match j {
        JsonModel::Array(items) => if 0 <= i < items.len() {
            items[i]
        } else {
            JsonModel::Null
        },
        _ => JsonModel::Null,
    }
}

pub open spec fn bool_text(b: bool) -> Seq<char> {
    if b {
        seq!['t', 'r', 'u', 'e']
    } else {
        seq!['f', 'a', 'l', 's', 'e']
    }
}

/// What `asText()` gives on a node.
pub open spec fn text_model(j: JsonModel) -> Result<Seq<char>, AccessError> {
    match j {
        JsonModel::Null => Ok(Seq::empty()),
        JsonModel::Boolean(b) => Ok(bool_text(b)),
        JsonModel::Number(t) => Ok(t),
        JsonModel::Str(t) => Ok(t),
        _ => Err(AccessError::NotPrimitive),
    }
}

/// The shared `Null` node that navigation misses return.
pub const NULL: Json = Json::Null;

/// The members of an object node, as keys and models.
pub open spec fn entries_model(es: Seq<(String, Json)>) -> Seq<(Seq<char>, JsonModel)> {
    Seq::new(es.len(), |i: int| (es[i].0@, es[i].1.model()))
}

impl Json {
    pub open spec fn model(&self) -> JsonModel
        decreases self,
    {
        match self {
            Json::Null => JsonModel::Null,
            Json::Boolean(b) => JsonModel::Boolean(*b),
            Json::Number(t) => JsonModel::Number(t@),
            Json::Strings(t) => JsonModel::Str(t@),
            Json::Array(v) => JsonModel::Array(
                Seq::new(v.len() as nat, |i: int| if 0 <= i < v.len() { v[i].model() } else { JsonModel::Null }),
            ),
            Json::Object(es) => JsonModel::Object(
                Seq::new(
                    es.len() as nat,
                    |i: int|
                        if 0 <= i < es.len() {
                            (es[i].0@, es[i].1.model())
                        } else {
                            (Seq::empty(), JsonModel::Null)
                        },
                ),
            ),
        }
    }

    #[allow(non_snake_case)]
    pub fn isString(&self) -> (r: bool)
        ensures
            r == self.model() is Str,
    {
        matches!(self, Json::Strings(_))
    }

    #[allow(non_snake_case)]
    pub fn isBoolean(&self) -> (r: bool)
        ensures
            r == self.model() is Boolean,
    {
        matches!(self, Json::Boolean(_))
    }

    #[allow(non_snake_case)]
    pub fn isNumber(&self) -> (r: bool)
        ensures
            r == self.model() is Number,
    {
        matches!(self, Json::Number(_))
    }

    #[allow(non_snake_case)]
    pub fn isArray(&self) -> (r: bool)
        ensures
            r == self.model() is Array,
    {
        matches!(self, Json::Array(_))
    }

    #[allow(non_snake_case)]
    pub fn isObject(&self) -> (r: bool)
        ensures
            r == self.model() is Object,
    {
        matches!(self, Json::Object(_))
    }

    /// Whether the node is `Null` (also what a navigation miss gives).
    #[allow(non_snake_case)]
    pub fn isNullOrEmptyNode(&self) -> (r: bool)
        ensures
            r == self.model() is Null,
    {
        matches!(self, Json::Null)
    }

    /// The member `name` of an object node; the `Null` node for an absent key
    /// or a node that is not an object.
    pub fn path(&self, name: &str) -> (r: &Json)
        ensures
            r.model() == path_model(self.model(), name@),
    {
        match self {
            Json::Object(es) => {
                let key = name.to_owned();
                let ghost m = entries_model(es@);
                assert(self.model() == JsonModel::Object(m)) by {
                    assert(self.model()->Object_0 =~= m);
                }
                let mut i: usize = 0;
                while i < es.len()
                    invariant
                        i <= es.len(),
                        key@ == name@,
                        m == entries_model(es@),
                        self.model() == JsonModel::Object(m),
                        key_index(m, name@) == key_index_from(m, name@, i as int),
                    decreases es.len() - i,
                {
                    if es[i].0 == key {
                        return &es[i].1;
                    }
                    i = i + 1;
                }
                &NULL
            },
            _ => &NULL,
        }
    }

    /// The element `index` of an array node; the `Null` node for an index out of
    /// range or a node that is not an array.
    #[allow(non_snake_case)]
    pub fn atIndex(&self, index: usize) -> (r: &Json)
        ensures
            r.model() == at_index_model(self.model(), index as int),
    {
        match self {
            Json::Array(v) => {
                if index < v.len() {
                    &v[index]
                } else {
                    &NULL
                }
            },
            _ => &NULL,
        }
    }

    /// The text of a primitive node: `true`/`false`, a number's numeral, a
    /// string's content, the empty text for `Null`.
    #[allow(non_snake_case)]
    pub fn asText(&self) -> (r: Result<String, AccessError>)
        ensures
            r matches Ok(t) ==> text_model(self.model()) == Ok::<Seq<char>, AccessError>(t@),
            r matches Err(e) ==> text_model(self.model()) == Err::<Seq<char>, AccessError>(e),
    {
        match self {
            Json::Null => Ok(String::new()),
            Json::Boolean(b) => {
                proof {
                    reveal_strlit("true");
                    reveal_strlit("false");
                }
                if *b {
                    let t = "true".to_owned();
                    assert(t@ =~= bool_text(true));
                    Ok(t)
                } else {
                    let t = "false".to_owned();
                    assert(t@ =~= bool_text(false));
                    Ok(t)
                }
            },
            Json::Number(t) => Ok(t.clone()),
            Json::Strings(t) => Ok(t.clone()),
            _ => Err(AccessError::NotPrimitive),
        }
    }
}

/// Binds `k` to `v` in the members `es`: an existing binding of an equal key is
/// replaced in place (last write wins), otherwise the member is appended.
pub fn insert_member_exec(es: &mut Vec<(String, Json)>, k: String, v: Json)
    ensures
        entries_model(final(es)@) == insert_member(entries_model(old(es)@), k@, v.model()),
{
    let ghost m = entries_model(es@);
    let ghost km = k@;
    let ghost vm = v.model();
    let mut i: usize = 0;
    while i < es.len()
        invariant
            i <= es.len(),
            *es == *old(es),
            m == entries_model(es@),
            k@ == km,
            v.model() == vm,
            key_index(m, km) == key_index_from(m, km, i as int),
        decreases es.len() - i,
    {
        if es[i].0 == k {
            es.set(i, (k, v));
            assert(entries_model(es@) =~= m.update(i as int, (km, vm)));
            return;
        }
        i = i + 1;
    }
    es.push((k, v));
    assert(entries_model(es@) =~= m.push((km, vm)));
}

/// `key_index_from` finds the first member from `i` on whose key is `k`, and -1
/// only when there is none.
pub proof fn lemma_key_index_from(es: Seq<(Seq<char>, JsonModel)>, k: Seq<char>, i: int)
    requires
        0 <= i,
    ensures
        key_index_from(es, k, i) == -1 || (i <= key_index_from(es, k, i) < es.len() && es[key_index_from(
            es,
            k,
            i,
        )].0 == k),
        key_index_from(es, k, i) == -1 ==> forall|j: int| i <= j < es.len() ==> es[j].0 != k,
    decreases es.len() - i,
{
    if i < es.len() && es[i].0 != k {
        lemma_key_index_from(es, k, i + 1);
    }
}

/// Binding a key keeps the keys of an object unique, and afterwards the key is
/// bound to the new value.
pub proof fn lemma_insert_keeps_keys_unique(es: Seq<(Seq<char>, JsonModel)>, k: Seq<char>, v: JsonModel)
    requires
        keys_unique(es),
    ensures
        keys_unique(insert_member(es, k, v)),
        key_index(insert_member(es, k, v), k) >= 0,
        insert_member(es, k, v)[key_index(insert_member(es, k, v), k)].1 == v,
{
    lemma_key_index_from(es, k, 0);
    let es2 = insert_member(es, k, v);
    lemma_key_index_from(es2, k, 0);
    if key_index(es, k) >= 0 {
        let i = key_index(es, k);
        assert forall|a: int, b: int| 0 <= a < b < es2.len() implies es2[a].0 != es2[b].0 by {
            assert(es2[a].0 == es[a].0 && es2[b].0 == es[b].0);
        }
        assert(key_index(es2, k) == i) by {
            assert forall|j: int| 0 <= j < i implies es2[j].0 != k by {
                assert(es[j].0 != es[i].0);
            }
            lemma_first_key(es2, k, 0, i);
        }
    } else {
        assert forall|a: int, b: int| 0 <= a < b < es2.len() implies es2[a].0 != es2[b].0 by {
            if b == es.len() {
                assert(es[a].0 != k);
            }
        }
        assert(key_index(es2, k) == es.len()) by {
            lemma_first_key(es2, k, 0, es.len() as int);
        }
    }
}

proof fn lemma_first_key(es: Seq<(Seq<char>, JsonModel)>, k: Seq<char>, from: int, i: int)
    requires
        0 <= from <= i < es.len(),
        es[i].0 == k,
        forall|j: int| from <= j < i ==> es[j].0 != k,
    ensures
        key_index_from(es, k, from) == i,
    decreases i - from,
{
    if from < i {
        lemma_first_key(es, k, from + 1, i);
    }
}

/// Navigation never fails: `path` on anything but an object that binds the
/// name, and `atIndex` on anything but an array with that index, give the
/// `Null` node; a hit gives the child itself.
pub proof fn lemma_navigation_total(j: JsonModel, name: Seq<char>, i: int)
    ensures
        !(j is Object && key_index(j->Object_0, name) >= 0) ==> path_model(j, name) == JsonModel::Null,
        j is Object && key_index(j->Object_0, name) >= 0 ==> path_model(j, name) == j->Object_0[key_index(
            j->Object_0,
            name,
        )].1 && j->Object_0[key_index(j->Object_0, name)].0 == name,
        !(j is Array && 0 <= i < j->Array_0.len()) ==> at_index_model(j, i) == JsonModel::Null,
        j is Array && 0 <= i < j->Array_0.len() ==> at_index_model(j, i) == j->Array_0[i],
{
    if j is Object {
        lemma_key_index_from(j->Object_0, name, 0);
    }
}

} // verus!
