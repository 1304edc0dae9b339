//! JSON documents as `shell.json` holds them, and the patching of
//! `shell.json` from its untouched baseline.
//!
//! An object is a list of entries with distinct keys; two documents are the
//! same when their objects hold the same keys with the same values, in any
//! order, as serde_json's maps compare.
use vstd::prelude::*;
use crate::assoc::{
    distinct_keys, entry_get, entry_insert, entry_remove, key_index, lemma_get_insert_other,
    lemma_get_insert_same, lemma_get_remove_other, lemma_get_remove_same, lemma_insert_distinct,
    keys_ascending, lemma_key_index, lemma_key_index_bounds, lemma_remove_distinct,
    lemma_str_lt_prefix, str_lt, string_keys_ascending,
};
use crate::text::{
    chars_of, eq_chars, lemma_split_len, lemma_split_prefix, split, split_chars, string_of, views,
};

verus! {

/// A JSON value. Numbers are held as their text, as serde_json prints them.
#[derive(Debug, PartialEq)]
pub enum Json {
    Null,
    Bool(bool),
    Number(String),
    Str(String),
    Array(Vec<Json>),
    Object(Vec<(String, Json)>),
}

/// The mathematical value of a JSON document.
pub enum JsonV {
    Null,
    Bool(bool),
    Number(Seq<char>),
    Str(Seq<char>),
    Array(Seq<JsonV>),
    Object(Seq<(Seq<char>, JsonV)>),
}

pub open spec fn jview(j: Json) -> JsonV
    decreases j,
{
    match j {
        Json::Null => JsonV::Null,
        Json::Bool(b) => JsonV::Bool(b),
        Json::Number(n) => JsonV::Number(n@),
        Json::Str(s) => JsonV::Str(s@),
        Json::Array(x) => JsonV::Array(
            Seq::new(
                x.len() as nat,
                |i: int|
                    if 0 <= i < x.len() {
                        jview(x[i])
                    } else {
                        JsonV::Null
                    },
            ),
        ),
        Json::Object(x) => JsonV::Object(
            Seq::new(
                x.len() as nat,
                |i: int|
                    if 0 <= i < x.len() {
                        (x[i].0@, jview(x[i].1))
                    } else {
                        (Seq::empty(), JsonV::Null)
                    },
            ),
        ),
    }
}

impl View for Json {
    type V = JsonV;

    open spec fn view(&self) -> JsonV {
        jview(*self)
    }
}

/// The entries of an object, as values.
pub open spec fn ev(x: Seq<(String, Json)>) -> Seq<(Seq<char>, JsonV)> {
    Seq::new(x.len(), |i: int| (x[i].0@, jview(x[i].1)))
}

/// The elements of an array, as values.
pub open spec fn av(x: Seq<Json>) -> Seq<JsonV> {
    Seq::new(x.len(), |i: int| jview(x[i]))
}

pub proof fn lemma_view_object(x: Vec<(String, Json)>)
    ensures
        Json::Object(x)@ == JsonV::Object(ev(x@)),
{
    assert(ev(x@) =~= match Json::Object(x)@ {
        JsonV::Object(e) => e,
        _ => Seq::empty(),
    });
}

pub proof fn lemma_view_array(x: Vec<Json>)
    ensures
        Json::Array(x)@ == JsonV::Array(av(x@)),
{
    assert(av(x@) =~= match Json::Array(x)@ {
        JsonV::Array(e) => e,
        _ => Seq::empty(),
    });
}

// ---------------------------------------------------------------------------
// Objects as maps
// ---------------------------------------------------------------------------

/// What serde_json's `Value::get(k)` gives: the value of key `k` when `doc`
/// is an object that has it.
pub open spec fn get_key(doc: JsonV, k: Seq<char>) -> Option<JsonV> {
    match doc {
        JsonV::Object(e) => entry_get(e, k),
        _ => None,
    }
}

/// The texts serde_json prints for the two floating-point zeros.
pub open spec fn is_float_zero(n: Seq<char>) -> bool {
    n == "0.0"@ || n == "-0.0"@
}

/// Two numbers, held as serde_json prints them, are equal as serde_json
/// compares numbers: the same text (serde_json prints equal numbers of one
/// kind alike), or the two floating-point zeros, which compare equal.
pub open spec fn same_number(x: Seq<char>, y: Seq<char>) -> bool {
    x == y || (is_float_zero(x) && is_float_zero(y))
}

/// Two documents are the same: equal scalars, arrays equal element by
/// element, and objects with the same number of entries where each key of
/// the first has the same value in the second.
pub open spec fn same(a: JsonV, b: JsonV) -> bool
    decreases a,
{
    match (a, b) {
        (JsonV::Null, JsonV::Null) => true,
        (JsonV::Bool(x), JsonV::Bool(y)) => x == y,
        (JsonV::Number(x), JsonV::Number(y)) => same_number(x, y),
        (JsonV::Str(x), JsonV::Str(y)) => x == y,
        (JsonV::Array(x), JsonV::Array(y)) => x.len() == y.len() && forall|i: int|
            #![trigger x[i]]
            0 <= i < x.len() ==> same(x[i], y[i]),
        (JsonV::Object(x), JsonV::Object(y)) => x.len() == y.len() && forall|i: int|
            #![trigger x[i]]
            0 <= i < x.len() ==> match entry_get(y, x[i].0) {
                Some(v) => same(x[i].1, v),
                None => false,
            },
        _ => false,
    }
}

fn key_position(x: &Vec<(String, Json)>, key: &Vec<char>) -> (p: usize)
    ensures
        p == key_index(ev(x@), key@),
        p <= x.len(),
{
    let ghost e = ev(x@);
    let mut i: usize = 0;
    while i < x.len()
        invariant
            i <= x.len(),
            e == ev(x@),
            forall|q: int| 0 <= q < i ==> (#[trigger] e[q]).0 != key@,
        decreases x.len() - i,
    {
        let k = chars_of(x[i].0.as_str());
        if eq_chars(&k, key) {
            proof {
                lemma_key_index(e, key@, i as int);
            }
            return i;
        }
        i += 1;
    }
    proof {
        lemma_key_index(e, key@, x.len() as int);
    }
    x.len()
}

fn float_zero_text(n: &Vec<char>) -> (b: bool)
    ensures
        b == is_float_zero(n@),
{
    eq_chars(n, &chars_of("0.0")) || eq_chars(n, &chars_of("-0.0"))
}

/// Whether two numbers, as serde_json prints them, are equal as serde_json
/// compares them.
pub fn same_number_text(x: &str, y: &str) -> (b: bool)
    ensures
        b == same_number(x@, y@),
{
    let a = chars_of(x);
    let c = chars_of(y);
    eq_chars(&a, &c) || (float_zero_text(&a) && float_zero_text(&c))
}

impl Json {
    /// Deep copy.
    #[verifier::loop_isolation(false)]
    pub fn copy(&self) -> (r: Json)
        ensures
            r@ == self@,
        decreases self,
    {
        match self {
            Json::Null => Json::Null,
            Json::Bool(b) => Json::Bool(*b),
            Json::Number(n) => Json::Number(n.clone()),
            Json::Str(s) => Json::Str(s.clone()),
            Json::Array(x) => {
                let mut out: Vec<Json> = Vec::new();
                let mut i: usize = 0;
                while i < x.len()
                    invariant
                        i <= x.len(),
                        av(out@) == av(x@).take(i as int),
                    decreases x.len() - i,
                {
                    proof {
                        vstd::std_specs::vec::axiom_vec_index_decreases(*x, i as int);
                    }
                    assert(decreases_to!(self => x[i as int]));
                    let c = x[i].copy();
                    out.push(c);
                    i += 1;
                    assert(av(out@) =~= av(x@).take(i as int));
                }
                proof {
                    assert(av(x@).take(x.len() as int) =~= av(x@));
                    lemma_view_array(out);
                    lemma_view_array(*x);
                }
                Json::Array(out)
            },
            Json::Object(x) => {
                let mut out: Vec<(String, Json)> = Vec::new();
                let mut i: usize = 0;
                while i < x.len()
                    invariant
                        i <= x.len(),
                        ev(out@) == ev(x@).take(i as int),
                    decreases x.len() - i,
                {
                    proof {
                        vstd::std_specs::vec::axiom_vec_index_decreases(*x, i as int);
                    }
                    assert(decreases_to!(self => x[i as int].1));
                    let k = x[i].0.clone();
                    let c = x[i].1.copy();
                    let ghost before = out@;
                    out.push((k, c));
                    assert(out@ == before.push((k, c)));
                    assert(ev(out@)[i as int] == (k@, c@));
                    assert(ev(x@)[i as int] == (x@[i as int].0@, x@[i as int].1@));
                    i += 1;
                    assert(ev(out@) =~= ev(x@).take(i as int));
                }
                proof {
                    assert(ev(x@).take(x.len() as int) =~= ev(x@));
                    lemma_view_object(out);
                    lemma_view_object(*x);
                }
                Json::Object(out)
            },
        }
    }

    /// serde_json's `Value::get` with a key: the value of `key` when `self` is
    /// an object that has it.
    pub fn get(&self, key: &str) -> (r: Option<&Json>)
        ensures
            match r {
                Some(v) => get_key(self@, key@) == Some(v@),
                None => get_key(self@, key@) is None,
            },
    {
        match self {
            Json::Object(x) => {
                proof {
                    lemma_view_object(*x);
                }
                let p = key_position(x, &chars_of(key));
                if p < x.len() {
                    Some(&x[p].1)
                } else {
                    None
                }
            },
            _ => None,
        }
    }

    /// Whether two documents are the same (see `same`).
    #[verifier::loop_isolation(false)]
    pub fn same_as(&self, other: &Json) -> (r: bool)
        ensures
            r == same(self@, other@),
        decreases self,
    {
        match (self, other) {
            (Json::Null, Json::Null) => true,
            (Json::Bool(x), Json::Bool(y)) => *x == *y,
            (Json::Number(x), Json::Number(y)) => same_number_text(x.as_str(), y.as_str()),
            (Json::Str(x), Json::Str(y)) => eq_chars(
                &chars_of(x.as_str()),
                &chars_of(y.as_str()),
            ),
            (Json::Array(x), Json::Array(y)) => {
                proof {
                    lemma_view_array(*x);
                    lemma_view_array(*y);
                }
                if x.len() != y.len() {
                    return false;
                }
                let mut i: usize = 0;
                while i < x.len()
                    invariant
                        i <= x.len(),
                        x.len() == y.len(),
                        forall|q: int| 0 <= q < i ==> same(#[trigger] av(x@)[q], av(y@)[q]),
                    decreases x.len() - i,
                {
                    proof {
                        vstd::std_specs::vec::axiom_vec_index_decreases(*x, i as int);
                    }
                    assert(decreases_to!(self => x[i as int]));
                    assert(av(x@)[i as int] == x@[i as int]@);
                    assert(av(y@)[i as int] == y@[i as int]@);
                    if !x[i].same_as(&y[i]) {
                        return false;
                    }
                    i += 1;
                }
                true
            },
            (Json::Object(x), Json::Object(y)) => {
                proof {
                    lemma_view_object(*x);
                    lemma_view_object(*y);
                }
                if x.len() != y.len() {
                    return false;
                }
                let mut i: usize = 0;
                while i < x.len()
                    invariant
                        i <= x.len(),
                        x.len() == y.len(),
                        forall|q: int|
                            #![trigger ev(x@)[q]]
                            0 <= q < i ==> match entry_get(ev(y@), ev(x@)[q].0) {
                                Some(v) => same(ev(x@)[q].1, v),
                                None => false,
                            },
                    decreases x.len() - i,
                {
                    proof {
                        vstd::std_specs::vec::axiom_vec_index_decreases(*x, i as int);
                    }
                    assert(decreases_to!(self => x[i as int].1));
                    let p = key_position(y, &chars_of(x[i].0.as_str()));
                    assert(ev(x@)[i as int] == (x@[i as int].0@, x@[i as int].1@));
                    if p >= y.len() {
                        return false;
                    }
                    assert(ev(y@)[p as int] == (y@[p as int].0@, y@[p as int].1@));
                    if !x[i].1.same_as(&y[p].1) {
                        return false;
                    }
                    i += 1;
                }
                true
            },
            _ => false,
        }
    }
}

/// Set `key` to `value` among the entries of an object.
pub fn insert_entry(x: &mut Vec<(String, Json)>, key: String, value: Json)
    ensures
        ev(final(x)@) == entry_insert(ev(old(x)@), key@, value@),
{
    let p = key_position(x, &chars_of(key.as_str()));
    let ghost e = ev(x@);
    let ghost k = key@;
    let ghost v = value@;
    if p < x.len() {
        x.set(p, (key, value));
        assert(ev(x@) =~= e.update(p as int, (k, v)));
    } else {
        x.push((key, value));
        assert(ev(x@) =~= e.push((k, v)));
    }
}

/// Remove `key` from the entries of an object.
pub fn remove_entry(x: &mut Vec<(String, Json)>, key: &str)
    ensures
        ev(final(x)@) == entry_remove(ev(old(x)@), key@),
{
    let p = key_position(x, &chars_of(key));
    let ghost e = ev(x@);
    if p < x.len() {
        x.remove(p);
        assert(ev(x@) =~= e.remove(p as int));
    }
}

// ---------------------------------------------------------------------------
// set_dotted
// ---------------------------------------------------------------------------

/// Why a dotted key could not be set, as values.
pub enum SetError {
    /// An existing value on the path, before the named part, is not an
    /// object.
    NotAnObject(Seq<char>),
    /// The value that would hold the last part is not an object.
    ParentNotObject,
}

/// `doc` with the value at path `parts` set to `value`, creating missing
/// intermediate objects.
pub open spec fn set_path(doc: JsonV, parts: Seq<Seq<char>>, value: JsonV) -> Result<
    JsonV,
    SetError,
>
    decreases parts.len(),
{
    if parts.len() <= 1 {
        match doc {
            JsonV::Object(e) => Ok(JsonV::Object(entry_insert(e, parts[0], value))),
            _ => Err(SetError::ParentNotObject),
        }
    } else {
        match doc {
            JsonV::Object(e) => {
                let child = match entry_get(e, parts[0]) {
                    Some(c) => c,
                    None => JsonV::Object(seq![]),
                };
                match set_path(child, parts.drop_first(), value) {
                    Ok(c) => Ok(JsonV::Object(entry_insert(e, parts[0], c))),
                    Err(err) => Err(err),
                }
            },
            _ => Err(SetError::NotAnObject(parts[0])),
        }
    }
}

/// `doc` with `a.b.c` set to `value`: the key is split at every `.`.
pub open spec fn spec_set_dotted(doc: JsonV, dotted: Seq<char>, value: JsonV) -> Result<
    JsonV,
    SetError,
> {
    set_path(doc, split(dotted, '.'), value)
}

/// Why a `[shell].patch` key could not be applied.
pub enum PatchError {
    /// `dotted`: `part` is not an object.
    NotAnObject { dotted: String, part: String },
    /// `dotted`: parent is not an object.
    ParentNotObject { dotted: String },
}

pub open spec fn error_is(pe: PatchError, dotted: Seq<char>, e: SetError) -> bool {
    match (pe, e) {
        (PatchError::NotAnObject { dotted: d, part }, SetError::NotAnObject(p)) => d@ == dotted
            && part@ == p,
        (PatchError::ParentNotObject { dotted: d }, SetError::ParentNotObject) => d@ == dotted,
        _ => false,
    }
}

enum SetFailure {
    NotAnObject(usize),
    ParentNotObject,
}

fn set_in(doc: Json, parts: &Vec<Vec<char>>, i: usize, value: Json) -> (r: Result<
    Json,
    (Json, SetFailure),
>)
    requires
        i < parts.len(),
    ensures
        match set_path(doc@, views(parts@).skip(i as int), value@) {
            Ok(d) => r matches Ok(j) && j@ == d,
            Err(SetError::ParentNotObject) => r matches Err((j, SetFailure::ParentNotObject))
                && j@ == doc@,
            Err(SetError::NotAnObject(p)) => r matches Err((j, SetFailure::NotAnObject(k)))
                && j@ == doc@ && i <= k < parts.len() && parts@[k as int]@ == p,
        },
    decreases parts.len() - i,
{
    let ghost rest = views(parts@).skip(i as int);
    assert(rest[0] == parts@[i as int]@);
    assert(rest.drop_first() =~= views(parts@).skip(i + 1));
    match doc {
        Json::Object(x) => {
            proof {
                lemma_view_object(x);
            }
            let mut x = x;
            let ghost e = ev(x@);
            if i + 1 == parts.len() {
                let key = string_of(&parts[i]);
                insert_entry(&mut x, key, value);
                proof {
                    lemma_view_object(x);
                }
                Ok(Json::Object(x))
            } else {
                let p = key_position(&x, &parts[i]);
                if p < x.len() {
                    proof {
                        lemma_key_index_bounds(e, parts@[i as int]@);
                    }
                    let (k, child) = x.remove(p);
                    assert(e[p as int] == (k@, child@));
                    let ghost removed = x@;
                    match set_in(child, parts, i + 1, value) {
                        Ok(c) => {
                            let ghost cv = c@;
                            x.insert(p, (k, c));
                            assert(ev(x@) =~= e.update(p as int, (parts@[i as int]@, cv)));
                            proof {
                                lemma_view_object(x);
                            }
                            Ok(Json::Object(x))
                        },
                        Err((c, f)) => {
                            x.insert(p, (k, c));
                            assert(ev(x@) =~= e);
                            proof {
                                lemma_view_object(x);
                            }
                            Err((Json::Object(x), f))
                        },
                    }
                } else {
                    let empty: Vec<(String, Json)> = Vec::new();
                    proof {
                        lemma_view_object(empty);
                        assert(ev(empty@) =~= seq![]);
                    }
                    match set_in(Json::Object(empty), parts, i + 1, value) {
                        Ok(c) => {
                            let key = string_of(&parts[i]);
                            let ghost cv = c@;
                            x.push((key, c));
                            assert(ev(x@) =~= e.push((parts@[i as int]@, cv)));
                            proof {
                                lemma_view_object(x);
                            }
                            Ok(Json::Object(x))
                        },
                        Err((_c, f)) => {
                            proof {
                                lemma_view_object(x);
                            }
                            Err((Json::Object(x), f))
                        },
                    }
                }
            }
        },
        other => {
            if i + 1 == parts.len() {
                Err((other, SetFailure::ParentNotObject))
            } else {
                Err((other, SetFailure::NotAnObject(i)))
            }
        },
    }
}

/// Set `a.b.c` inside a JSON document, creating intermediate objects. On an
/// error the document is left as it was.
pub fn set_dotted(doc: &mut Json, dotted: &str, value: Json) -> (r: Result<(), PatchError>)
    ensures
        match spec_set_dotted(old(doc)@, dotted@, value@) {
            Ok(d) => r is Ok && final(doc)@ == d,
            Err(e) => final(doc)@ == old(doc)@ && (r matches Err(pe) && error_is(pe, dotted@, e)),
        },
{
    let parts = split_chars(&chars_of(dotted), '.');
    assert(views(parts@).skip(0) =~= views(parts@));
    let mut taken = Json::Null;
    std::mem::swap(doc, &mut taken);
    match set_in(taken, &parts, 0, value) {
        Ok(j) => {
            *doc = j;
            Ok(())
        },
        Err((j, f)) => {
            *doc = j;
            let d = string_of(&chars_of(dotted));
            match f {
                SetFailure::NotAnObject(k) => {
                    let part = string_of(&parts[k]);
                    Err(PatchError::NotAnObject { dotted: d, part })
                },
                SetFailure::ParentNotObject => Err(PatchError::ParentNotObject { dotted: d }),
            }
        },
    }
}

// ---------------------------------------------------------------------------
// shell.json from its baseline
// ---------------------------------------------------------------------------

/// Top-level `shell.json` keys the running shell owns. They are never
/// restored from the baseline: they reflect live plugin state, not theme
/// intent.
pub open spec fn is_runtime_key(k: Seq<char>) -> bool {
    k == "plugins"@ || k == "disabledPlugins"@
}

/// `doc` with key `k` taken from `live`: set to the live value, or removed
/// when `live` has none. A `doc` that is not an object is left as it is.
pub open spec fn carry_key(doc: JsonV, live: JsonV, k: Seq<char>) -> JsonV {
    match doc {
        JsonV::Object(e) => JsonV::Object(
            match get_key(live, k) {
                Some(v) => entry_insert(e, k, v),
                None => entry_remove(e, k),
            },
        ),
        _ => doc,
    }
}

/// `doc` with the runtime-owned keys carried over from the live document.
pub open spec fn carry_runtime(doc: JsonV, live: JsonV) -> JsonV {
    carry_key(carry_key(doc, live, "plugins"@), live, "disabledPlugins"@)
}

/// The patch applied in order; the first key that cannot be set stops it.
pub open spec fn apply_patches(doc: JsonV, patch: Seq<(Seq<char>, JsonV)>) -> Result<
    JsonV,
    (Seq<char>, SetError),
>
    decreases patch.len(),
{
    if patch.len() == 0 {
        Ok(doc)
    } else {
        match spec_set_dotted(doc, patch[0].0, patch[0].1) {
            Ok(d) => apply_patches(d, patch.drop_first()),
            Err(e) => Err((patch[0].0, e)),
        }
    }
}

/// The `shell.json` a theme asks for: the untouched baseline, with the
/// runtime-owned keys of the live file (when it could be read), then the
/// theme's patch.
pub open spec fn spec_shell_document(
    baseline: JsonV,
    live: Option<JsonV>,
    patch: Seq<(Seq<char>, JsonV)>,
) -> Result<JsonV, (Seq<char>, SetError)> {
    let start = match live {
        Some(l) => carry_runtime(baseline, l),
        None => baseline,
    };
    apply_patches(start, patch)
}

pub open spec fn opt_view(o: Option<&Json>) -> Option<JsonV> {
    match o {
        Some(j) => Some(j@),
        None => None,
    }
}

fn carry_key_exec(doc: &mut Json, live: &Json, key: &str)
    ensures
        final(doc)@ == carry_key(old(doc)@, live@, key@),
{
    let mut taken = Json::Null;
    std::mem::swap(doc, &mut taken);
    match taken {
        Json::Object(x) => {
            proof {
                lemma_view_object(x);
            }
            let mut x = x;
            match live.get(key) {
                Some(v) => {
                    let k = string_of(&chars_of(key));
                    insert_entry(&mut x, k, v.copy());
                },
                None => {
                    remove_entry(&mut x, key);
                },
            }
            proof {
                lemma_view_object(x);
            }
            *doc = Json::Object(x);
        },
        other => {
            *doc = other;
        },
    }
}

/// Carry the runtime-owned keys (`plugins`, `disabledPlugins`) of the live
/// `shell.json` over into `doc`.
pub fn carry_runtime_keys(doc: &mut Json, live: &Json)
    ensures
        final(doc)@ == carry_runtime(old(doc)@, live@),
{
    carry_key_exec(doc, live, "plugins");
    carry_key_exec(doc, live, "disabledPlugins");
}

/// `shell.json` is patched from an untouched baseline, so switching themes
/// never accumulates the previous theme's overrides. `live` is the current
/// `shell.json` when it could be read and parsed; `patch` is the theme's
/// `[shell].patch` in key order.
pub fn shell_document(baseline: Json, live: Option<&Json>, patch: &Vec<(String, Json)>) -> (r:
    Result<Json, PatchError>)
    requires
        string_keys_ascending(patch@),
    ensures
        match spec_shell_document(baseline@, opt_view(live), ev(patch@)) {
            Ok(d) => r matches Ok(j) && j@ == d,
            Err((k, e)) => r matches Err(pe) && error_is(pe, k, e),
        },
{
    let mut doc = baseline;
    match live {
        Some(l) => carry_runtime_keys(&mut doc, l),
        None => {},
    }
    let ghost start = doc@;
    let mut i: usize = 0;
    assert(ev(patch@).skip(0) =~= ev(patch@));
    while i < patch.len()
        invariant
            i <= patch.len(),
            spec_shell_document(baseline@, opt_view(live), ev(patch@)) == apply_patches(
                doc@,
                ev(patch@).skip(i as int),
            ),
        decreases patch.len() - i,
    {
        let ghost rest = ev(patch@).skip(i as int);
        assert(rest[0] == (patch@[i as int].0@, patch@[i as int].1@));
        assert(rest.drop_first() =~= ev(patch@).skip(i + 1));
        let v = patch[i].1.copy();
        match set_dotted(&mut doc, patch[i].0.as_str(), v) {
            Ok(()) => {},
            Err(e) => {
                return Err(e);
            },
        }
        i += 1;
    }
    Ok(doc)
}

/// Compare the parsed documents, not the bytes: reformatting a file the
/// user hand-edited would be a change they never asked for. `current` is the
/// live `shell.json` when it could be read and parsed.
pub fn needs_write(current: Option<&Json>, doc: &Json) -> (r: bool)
    ensures
        r == match current {
            Some(c) => !same(c@, doc@),
            None => true,
        },
{
    match current {
        Some(c) => !c.same_as(doc),
        None => true,
    }
}

// ---------------------------------------------------------------------------
// Laws
// ---------------------------------------------------------------------------

/// The baseline rule: the `shell.json` a theme gets depends on the live file
/// only through its runtime-owned keys. Whatever the previous theme wrote
/// elsewhere in the live file has no effect.
pub proof fn law_document_ignores_previous_theme(
    baseline: JsonV,
    live1: JsonV,
    live2: JsonV,
    patch: Seq<(Seq<char>, JsonV)>,
)
    requires
        get_key(live1, "plugins"@) == get_key(live2, "plugins"@),
        get_key(live1, "disabledPlugins"@) == get_key(live2, "disabledPlugins"@),
    ensures
        spec_shell_document(baseline, Some(live1), patch) == spec_shell_document(
            baseline,
            Some(live2),
            patch,
        ),
{
}

/// A theme that patches nothing restores the baseline: every key that the
/// running shell does not own has its baseline value.
pub proof fn law_empty_patch_restores_baseline(baseline: JsonV, live: Option<JsonV>, k: Seq<char>)
    requires
        !is_runtime_key(k),
    ensures
        spec_shell_document(baseline, live, seq![]) matches Ok(d) && get_key(d, k) == get_key(
            baseline,
            k,
        ),
{
    match live {
        Some(l) => {
            match baseline {
                JsonV::Object(e) => {
                    let e1 = match get_key(l, "plugins"@) {
                        Some(v) => entry_insert(e, "plugins"@, v),
                        None => entry_remove(e, "plugins"@),
                    };
                    match get_key(l, "plugins"@) {
                        Some(v) => lemma_get_insert_other(e, "plugins"@, v, k),
                        None => lemma_get_remove_other(e, "plugins"@, k),
                    }
                    match get_key(l, "disabledPlugins"@) {
                        Some(v) => lemma_get_insert_other(e1, "disabledPlugins"@, v, k),
                        None => lemma_get_remove_other(e1, "disabledPlugins"@, k),
                    }
                },
                _ => {},
            }
        },
        None => {},
    }
}

proof fn lemma_set_path_idempotent(doc: JsonV, parts: Seq<Seq<char>>, value: JsonV, d: JsonV)
    requires
        set_path(doc, parts, value) == Ok::<JsonV, SetError>(d),
    ensures
        set_path(d, parts, value) == Ok::<JsonV, SetError>(d),
    decreases parts.len(),
{
    match doc {
        JsonV::Object(e) => {
            if parts.len() <= 1 {
                lemma_get_insert_same(e, parts[0], value);
            } else {
                let child = match entry_get(e, parts[0]) {
                    Some(c) => c,
                    None => JsonV::Object(seq![]),
                };
                let c = set_path(child, parts.drop_first(), value)->Ok_0;
                lemma_set_path_idempotent(child, parts.drop_first(), value, c);
                lemma_get_insert_same(e, parts[0], c);
            }
        },
        _ => {},
    }
}

/// Setting a dotted key is idempotent: setting it again to the same value
/// succeeds and changes nothing.
pub proof fn law_set_dotted_idempotent(doc: JsonV, dotted: Seq<char>, value: JsonV)
    requires
        spec_set_dotted(doc, dotted, value) is Ok,
    ensures
        spec_set_dotted(spec_set_dotted(doc, dotted, value)->Ok_0, dotted, value)
            == spec_set_dotted(doc, dotted, value),
{
    let d = spec_set_dotted(doc, dotted, value)->Ok_0;
    lemma_set_path_idempotent(doc, split(dotted, '.'), value, d);
}

/// After setting a dotted key, the value sits at that path.
pub proof fn law_set_dotted_reads_back(doc: JsonV, parts: Seq<Seq<char>>, value: JsonV)
    requires
        parts.len() >= 1,
        set_path(doc, parts, value) is Ok,
    ensures
        path_get(set_path(doc, parts, value)->Ok_0, parts) == Some(value),
    decreases parts.len(),
{
    reveal_with_fuel(path_get, 2);
    match doc {
        JsonV::Object(e) => {
            if parts.len() <= 1 {
                lemma_get_insert_same(e, parts[0], value);
            } else {
                let child = match entry_get(e, parts[0]) {
                    Some(c) => c,
                    None => JsonV::Object(seq![]),
                };
                let c = set_path(child, parts.drop_first(), value)->Ok_0;
                law_set_dotted_reads_back(child, parts.drop_first(), value);
                lemma_get_insert_same(e, parts[0], c);
            }
        },
        _ => {},
    }
}

/// The value at path `parts` of `doc`.
pub open spec fn path_get(doc: JsonV, parts: Seq<Seq<char>>) -> Option<JsonV>
    decreases parts.len(),
{
    if parts.len() == 0 {
        Some(doc)
    } else {
        match get_key(doc, parts[0]) {
            Some(c) => path_get(c, parts.drop_first()),
            None => None,
        }
    }
}

// ---------------------------------------------------------------------------
// Well-formed documents
// ---------------------------------------------------------------------------

/// Every object of the document, at any depth, has distinct keys, as a
/// parsed JSON document has.
pub open spec fn wf_json(j: JsonV) -> bool
    decreases j,
{
    match j {
        JsonV::Array(x) => forall|i: int| #![trigger x[i]] 0 <= i < x.len() ==> wf_json(x[i]),
        JsonV::Object(e) => distinct_keys(e) && forall|i: int|
            #![trigger e[i]]
            0 <= i < e.len() ==> wf_json(e[i].1),
        _ => true,
    }
}

/// A well-formed document is the same as itself: a `shell.json` that already
/// holds the patched document is not written again.
pub proof fn law_same_is_reflexive(j: JsonV)
    requires
        wf_json(j),
    ensures
        same(j, j),
    decreases j,
{
    match j {
        JsonV::Array(x) => {
            assert forall|i: int| #![trigger x[i]] 0 <= i < x.len() implies same(x[i], x[i]) by {
                law_same_is_reflexive(x[i]);
            }
        },
        JsonV::Object(e) => {
            assert forall|i: int| #![trigger e[i]] 0 <= i < e.len() implies match entry_get(
                e,
                e[i].0,
            ) {
                Some(v) => same(e[i].1, v),
                None => false,
            } by {
                assert forall|q: int| 0 <= q < i implies (#[trigger] e[q]).0 != e[i].0 by {}
                lemma_key_index(e, e[i].0, i);
                law_same_is_reflexive(e[i].1);
            }
        },
        _ => {},
    }
}

proof fn lemma_insert_wf(e: Seq<(Seq<char>, JsonV)>, k: Seq<char>, v: JsonV)
    requires
        wf_json(JsonV::Object(e)),
        wf_json(v),
    ensures
        wf_json(JsonV::Object(entry_insert(e, k, v))),
{
    lemma_insert_distinct(e, k, v);
    lemma_key_index_bounds(e, k);
    let n = entry_insert(e, k, v);
    assert forall|i: int| #![trigger n[i]] 0 <= i < n.len() implies wf_json(n[i].1) by {
        if i < e.len() && i != key_index(e, k) {
            assert(n[i] == e[i]);
        }
    }
}

proof fn lemma_remove_wf(e: Seq<(Seq<char>, JsonV)>, k: Seq<char>)
    requires
        wf_json(JsonV::Object(e)),
    ensures
        wf_json(JsonV::Object(entry_remove(e, k))),
{
    lemma_key_index_bounds(e, k);
    let n = entry_remove(e, k);
    let r = key_index(e, k);
    if r < e.len() {
        assert forall|i: int| #![trigger n[i]] 0 <= i < n.len() implies wf_json(n[i].1) by {
            if i < r {
                assert(n[i] == e[i]);
            } else {
                assert(n[i] == e[i + 1]);
            }
        }
        assert forall|a: int, b: int| 0 <= a < b < n.len() implies (#[trigger] n[a]).0 != (
        #[trigger] n[b]).0 by {
            let a2 = if a < r {
                a
            } else {
                a + 1
            };
            let b2 = if b < r {
                b
            } else {
                b + 1
            };
            assert(n[a] == e[a2] && n[b] == e[b2]);
        }
    }
}

proof fn lemma_get_wf(e: Seq<(Seq<char>, JsonV)>, k: Seq<char>)
    requires
        wf_json(JsonV::Object(e)),
    ensures
        entry_get(e, k) matches Some(v) ==> wf_json(v),
{
    lemma_key_index_bounds(e, k);
    let i = key_index(e, k);
    if i < e.len() {
        assert(wf_json(e[i].1));
    }
}

proof fn lemma_set_path_wf(doc: JsonV, parts: Seq<Seq<char>>, value: JsonV)
    requires
        wf_json(doc),
        wf_json(value),
    ensures
        set_path(doc, parts, value) matches Ok(d) ==> wf_json(d),
    decreases parts.len(),
{
    match doc {
        JsonV::Object(e) => {
            if parts.len() <= 1 {
                lemma_insert_wf(e, parts[0], value);
            } else {
                lemma_get_wf(e, parts[0]);
                let child = match entry_get(e, parts[0]) {
                    Some(c) => c,
                    None => JsonV::Object(seq![]),
                };
                lemma_set_path_wf(child, parts.drop_first(), value);
                match set_path(child, parts.drop_first(), value) {
                    Ok(c) => lemma_insert_wf(e, parts[0], c),
                    Err(_) => {},
                }
            }
        },
        _ => {},
    }
}

proof fn lemma_apply_patches_wf(doc: JsonV, patch: Seq<(Seq<char>, JsonV)>)
    requires
        wf_json(doc),
        forall|i: int| #![trigger patch[i]] 0 <= i < patch.len() ==> wf_json(patch[i].1),
    ensures
        apply_patches(doc, patch) matches Ok(d) ==> wf_json(d),
    decreases patch.len(),
{
    if patch.len() > 0 {
        lemma_set_path_wf(doc, split(patch[0].0, '.'), patch[0].1);
        match spec_set_dotted(doc, patch[0].0, patch[0].1) {
            Ok(d) => {
                let rest = patch.drop_first();
                assert forall|i: int| #![trigger rest[i]] 0 <= i < rest.len() implies wf_json(
                    rest[i].1,
                ) by {
                    assert(rest[i] == patch[i + 1]);
                }
                lemma_apply_patches_wf(d, rest);
            },
            Err(_) => {},
        }
    }
}

proof fn lemma_carry_key_wf(doc: JsonV, live: JsonV, k: Seq<char>)
    requires
        wf_json(doc),
        wf_json(live),
    ensures
        wf_json(carry_key(doc, live, k)),
{
    match doc {
        JsonV::Object(e) => {
            match live {
                JsonV::Object(l) => lemma_get_wf(l, k),
                _ => {},
            }
            match get_key(live, k) {
                Some(v) => lemma_insert_wf(e, k, v),
                None => lemma_remove_wf(e, k),
            }
        },
        _ => {},
    }
}

/// The patched `shell.json` is well formed when the baseline, the live file
/// and the patch values are: patching never duplicates a key.
pub proof fn law_shell_document_well_formed(
    baseline: JsonV,
    live: Option<JsonV>,
    patch: Seq<(Seq<char>, JsonV)>,
)
    requires
        wf_json(baseline),
        live matches Some(l) ==> wf_json(l),
        forall|i: int| #![trigger patch[i]] 0 <= i < patch.len() ==> wf_json(patch[i].1),
    ensures
        spec_shell_document(baseline, live, patch) matches Ok(d) ==> wf_json(d),
{
    let start = match live {
        Some(l) => {
            lemma_carry_key_wf(baseline, l, "plugins"@);
            lemma_carry_key_wf(carry_key(baseline, l, "plugins"@), l, "disabledPlugins"@);
            carry_runtime(baseline, l)
        },
        None => baseline,
    };
    lemma_apply_patches_wf(start, patch);
}

// ---------------------------------------------------------------------------
// Applying twice
// ---------------------------------------------------------------------------

/// The top-level key that a dotted patch key sets, or descends into.
pub open spec fn first_segment(dotted: Seq<char>) -> Seq<char> {
    split(dotted, '.')[0]
}

proof fn lemma_set_path_keeps_other_key(
    doc: JsonV,
    parts: Seq<Seq<char>>,
    value: JsonV,
    k: Seq<char>,
)
    requires
        parts.len() >= 1,
        parts[0] != k,
    ensures
        set_path(doc, parts, value) matches Ok(d) ==> get_key(d, k) == get_key(doc, k),
{
    match doc {
        JsonV::Object(e) => {
            if parts.len() <= 1 {
                lemma_get_insert_other(e, parts[0], value, k);
            } else {
                let child = match entry_get(e, parts[0]) {
                    Some(c) => c,
                    None => JsonV::Object(seq![]),
                };
                match set_path(child, parts.drop_first(), value) {
                    Ok(c) => lemma_get_insert_other(e, parts[0], c, k),
                    Err(_) => {},
                }
            }
        },
        _ => {},
    }
}

proof fn lemma_apply_patches_keeps_key(doc: JsonV, patch: Seq<(Seq<char>, JsonV)>, k: Seq<char>)
    requires
        forall|i: int| #![trigger patch[i]] 0 <= i < patch.len() ==> first_segment(patch[i].0)
            != k,
    ensures
        apply_patches(doc, patch) matches Ok(d) ==> get_key(d, k) == get_key(doc, k),
    decreases patch.len(),
{
    if patch.len() > 0 {
        lemma_split_len(patch[0].0, '.');
        lemma_set_path_keeps_other_key(doc, split(patch[0].0, '.'), patch[0].1, k);
        match spec_set_dotted(doc, patch[0].0, patch[0].1) {
            Ok(d) => {
                let rest = patch.drop_first();
                assert forall|i: int| #![trigger rest[i]] 0 <= i < rest.len() implies first_segment(
                    rest[i].0,
                ) != k by {
                    assert(rest[i] == patch[i + 1]);
                }
                lemma_apply_patches_keeps_key(d, rest, k);
            },
            Err(_) => {},
        }
    }
}

proof fn lemma_carry_reads_live(doc: JsonV, live: JsonV, k: Seq<char>)
    requires
        doc matches JsonV::Object(e) && distinct_keys(e),
    ensures
        get_key(carry_key(doc, live, k), k) == get_key(live, k),
        carry_key(doc, live, k) matches JsonV::Object(e) && distinct_keys(e),
{
    match doc {
        JsonV::Object(e) => {
            match get_key(live, k) {
                Some(v) => {
                    lemma_get_insert_same(e, k, v);
                    lemma_insert_distinct(e, k, v);
                },
                None => {
                    lemma_get_remove_same(e, k);
                    lemma_remove_distinct(e, k);
                },
            }
        },
        _ => {},
    }
}

/// Applying a theme twice changes nothing the second time: with the patched
/// `shell.json` as the live file, the same document comes out. This holds of
/// patches that leave the runtime-owned keys alone.
pub proof fn law_shell_document_idempotent(
    baseline: JsonV,
    live: JsonV,
    patch: Seq<(Seq<char>, JsonV)>,
)
    requires
        wf_json(baseline),
        forall|i: int| #![trigger patch[i]] 0 <= i < patch.len() ==> !is_runtime_key(
            first_segment(patch[i].0),
        ),
        spec_shell_document(baseline, Some(live), patch) is Ok,
    ensures
        spec_shell_document(
            baseline,
            Some(spec_shell_document(baseline, Some(live), patch)->Ok_0),
            patch,
        ) == spec_shell_document(baseline, Some(live), patch),
{
    let d = spec_shell_document(baseline, Some(live), patch)->Ok_0;
    match baseline {
        JsonV::Object(_) => {
            lemma_runtime_keys_differ();
            let c1 = carry_key(baseline, live, "plugins"@);
            lemma_carry_reads_live(baseline, live, "plugins"@);
            lemma_carry_reads_live(c1, live, "disabledPlugins"@);
            let start = carry_runtime(baseline, live);
            match c1 {
                JsonV::Object(e1) => {
                    match get_key(live, "disabledPlugins"@) {
                        Some(v) => lemma_get_insert_other(e1, "disabledPlugins"@, v, "plugins"@),
                        None => lemma_get_remove_other(e1, "disabledPlugins"@, "plugins"@),
                    }
                },
                _ => {},
            }
            assert(get_key(start, "plugins"@) == get_key(live, "plugins"@));
            assert(get_key(start, "disabledPlugins"@) == get_key(live, "disabledPlugins"@));
            assert forall|i: int| #![trigger patch[i]] 0 <= i < patch.len() implies first_segment(
                patch[i].0,
            ) != "plugins"@ by {}
            assert forall|i: int| #![trigger patch[i]] 0 <= i < patch.len() implies first_segment(
                patch[i].0,
            ) != "disabledPlugins"@ by {}
            lemma_apply_patches_keeps_key(start, patch, "plugins"@);
            lemma_apply_patches_keeps_key(start, patch, "disabledPlugins"@);
            law_document_ignores_previous_theme(baseline, d, live, patch);
        },
        _ => {
            assert(carry_runtime(baseline, live) == baseline);
            assert(carry_runtime(baseline, d) == baseline);
        },
    }
}

// ---------------------------------------------------------------------------
// Applying twice, compared as documents
// ---------------------------------------------------------------------------

/// What one patch entry does to the value under its first segment `c`: the
/// whole value replaced when the key is that segment alone, else the path
/// below it set.
spec fn step_child(c: Option<JsonV>, rest: Seq<Seq<char>>, v: JsonV) -> Result<JsonV, SetError> {
    if rest.len() == 0 {
        Ok(v)
    } else {
        set_path(
            match c {
                Some(x) => x,
                None => JsonV::Object(seq![]),
            },
            rest,
            v,
        )
    }
}

/// The value under top-level key `k` after `patch`, from its value `c`
/// before; `None` when a patch entry under `k` fails.
spec fn child_patches(c: Option<JsonV>, patch: Seq<(Seq<char>, JsonV)>, k: Seq<char>) -> Option<
    Option<JsonV>,
>
    decreases patch.len(),
{
    if patch.len() == 0 {
        Some(c)
    } else {
        let parts = split(patch[0].0, '.');
        if parts[0] != k {
            child_patches(c, patch.drop_first(), k)
        } else {
            match step_child(c, parts.drop_first(), patch[0].1) {
                Ok(c2) => child_patches(Some(c2), patch.drop_first(), k),
                Err(_) => None,
            }
        }
    }
}

proof fn lemma_set_path_object(e: Seq<(Seq<char>, JsonV)>, parts: Seq<Seq<char>>, v: JsonV)
    requires
        parts.len() >= 1,
    ensures
        set_path(JsonV::Object(e), parts, v) == match step_child(
            entry_get(e, parts[0]),
            parts.drop_first(),
            v,
        ) {
            Ok(c) => Ok::<JsonV, SetError>(JsonV::Object(entry_insert(e, parts[0], c))),
            Err(err) => Err(err),
        },
{
}

/// Patching an object works key by key: the value under each top-level key
/// comes from its value before alone, and the patch succeeds when it does
/// under every key.
proof fn lemma_patches_by_key(e: Seq<(Seq<char>, JsonV)>, patch: Seq<(Seq<char>, JsonV)>)
    ensures
        apply_patches(JsonV::Object(e), patch) matches Ok(r) ==> (r is Object && forall|k: Seq<char>|
            child_patches(entry_get(e, k), patch, k) == Some(#[trigger] get_key(r, k))),
        (forall|k: Seq<char>| #[trigger] child_patches(entry_get(e, k), patch, k) is Some)
            ==> apply_patches(JsonV::Object(e), patch) is Ok,
    decreases patch.len(),
{
    if patch.len() > 0 {
        let parts = split(patch[0].0, '.');
        lemma_split_len(patch[0].0, '.');
        let k0 = parts[0];
        let v = patch[0].1;
        let rest = patch.drop_first();
        lemma_set_path_object(e, parts, v);
        match step_child(entry_get(e, k0), parts.drop_first(), v) {
            Ok(c) => {
                let e2 = entry_insert(e, k0, c);
                lemma_patches_by_key(e2, rest);
                lemma_get_insert_same(e, k0, c);
                assert forall|k: Seq<char>| k != k0 implies entry_get(e2, k) == entry_get(e, k) by {
                    lemma_get_insert_other(e, k0, c, k);
                }
                assert forall|k: Seq<char>|
                    child_patches(entry_get(e, k), patch, k) == child_patches(
                        #[trigger] entry_get(e2, k),
                        rest,
                        k,
                    ) by {
                    if k != k0 {
                        assert(entry_get(e2, k) == entry_get(e, k));
                    }
                }
            },
            Err(_) => {
                assert(child_patches(entry_get(e, k0), patch, k0) is None);
            },
        }
    }
}

/// The keys of an object's entries.
spec fn keys_of(e: Seq<(Seq<char>, JsonV)>) -> Seq<Seq<char>> {
    e.map_values(|x: (Seq<char>, JsonV)| x.0)
}

proof fn lemma_keys_of_contains(e: Seq<(Seq<char>, JsonV)>, k: Seq<char>)
    ensures
        keys_of(e).contains(k) == (entry_get(e, k) is Some),
{
    lemma_key_index_bounds(e, k);
    let ks = keys_of(e);
    if ks.contains(k) {
        let i = choose|i: int| 0 <= i < ks.len() && ks[i] == k;
        assert(ks[i] == e[i].0);
    }
    if entry_get(e, k) is Some {
        let i = key_index(e, k);
        assert(ks[i] == e[i].0);
    }
}

proof fn lemma_runtime_keys_differ()
    ensures
        "plugins"@ != "disabledPlugins"@,
{
    reveal_strlit("plugins");
    reveal_strlit("disabledPlugins");
    assert("plugins"@.len() == 7);
    assert("disabledPlugins"@.len() == 15);
}

/// Carrying the runtime-owned keys over gives those keys their live values
/// and leaves every other key of the baseline as it is.
proof fn lemma_carry_runtime_get(b: JsonV, live: JsonV, k: Seq<char>)
    requires
        b matches JsonV::Object(e) && distinct_keys(e),
    ensures
        carry_runtime(b, live) is Object,
        get_key(carry_runtime(b, live), k) == if is_runtime_key(k) {
            get_key(live, k)
        } else {
            get_key(b, k)
        },
{
    lemma_runtime_keys_differ();
    let p = "plugins"@;
    let d = "disabledPlugins"@;
    let c1 = carry_key(b, live, p);
    lemma_carry_reads_live(b, live, p);
    lemma_carry_reads_live(c1, live, d);
    match b {
        JsonV::Object(e) => {
            if k != p {
                match get_key(live, p) {
                    Some(v) => lemma_get_insert_other(e, p, v, k),
                    None => lemma_get_remove_other(e, p, k),
                }
            }
        },
        _ => {},
    }
    match c1 {
        JsonV::Object(e1) => {
            if k != d {
                match get_key(live, d) {
                    Some(v) => lemma_get_insert_other(e1, d, v, k),
                    None => lemma_get_remove_other(e1, d, k),
                }
            }
        },
        _ => {},
    }
}

/// A patch as path writes: each key split at its dots.
spec fn writes_of(patch: Seq<(Seq<char>, JsonV)>) -> Seq<(Seq<Seq<char>>, JsonV)> {
    patch.map_values(|e: (Seq<char>, JsonV)| (split(e.0, '.'), e.1))
}

/// The value at path `pre` after the writes `w`, from its value `c` before:
/// writes whose path begins with `pre` act on it (one at `pre` itself
/// replaces it), the others pass it by; `None` when one of them fails.
spec fn writes_below(
    c: Option<JsonV>,
    w: Seq<(Seq<Seq<char>>, JsonV)>,
    pre: Seq<Seq<char>>,
) -> Option<Option<JsonV>>
    decreases w.len(),
{
    if w.len() == 0 {
        Some(c)
    } else if !pre.is_prefix_of(w[0].0) {
        writes_below(c, w.drop_first(), pre)
    } else {
        match step_child(c, w[0].0.skip(pre.len() as int), w[0].1) {
            Ok(c2) => writes_below(Some(c2), w.drop_first(), pre),
            Err(_) => None,
        }
    }
}

proof fn lemma_child_patches_writes(c: Option<JsonV>, patch: Seq<(Seq<char>, JsonV)>, k: Seq<char>)
    ensures
        child_patches(c, patch, k) == writes_below(c, writes_of(patch), seq![k]),
    decreases patch.len(),
{
    if patch.len() > 0 {
        let w = writes_of(patch);
        let parts = split(patch[0].0, '.');
        lemma_split_len(patch[0].0, '.');
        assert(w[0] == (parts, patch[0].1));
        assert(w.drop_first() =~= writes_of(patch.drop_first()));
        assert(seq![k].is_prefix_of(parts) == (parts[0] == k)) by {
            if parts[0] == k {
                assert(seq![k] =~= parts.subrange(0, 1));
            }
            if seq![k].is_prefix_of(parts) {
                assert(seq![k][0] == parts.subrange(0, 1)[0]);
            }
        }
        assert(parts.skip(1) =~= parts.drop_first());
        if parts[0] == k {
            match step_child(c, parts.drop_first(), patch[0].1) {
                Ok(c2) => lemma_child_patches_writes(Some(c2), patch.drop_first(), k),
                Err(_) => {},
            }
        } else {
            lemma_child_patches_writes(c, patch.drop_first(), k);
        }
    }
}

/// Writes none of which lies under `pre` leave the value there as it is.
proof fn lemma_writes_skip(c: Option<JsonV>, w: Seq<(Seq<Seq<char>>, JsonV)>, pre: Seq<Seq<char>>)
    requires
        forall|i: int| 0 <= i < w.len() ==> !pre.is_prefix_of(#[trigger] w[i].0),
    ensures
        writes_below(c, w, pre) == Some(c),
    decreases w.len(),
{
    if w.len() > 0 {
        let rest = w.drop_first();
        assert(!pre.is_prefix_of(w[0].0));
        assert forall|i: int| 0 <= i < rest.len() implies !pre.is_prefix_of(#[trigger] rest[i].0) by {
            assert(rest[i] == w[i + 1]);
        }
        lemma_writes_skip(c, rest, pre);
    }
}

/// A write at `pre` itself, the first under `pre`, replaces whatever was
/// there before.
proof fn lemma_writes_replace(
    c: Option<JsonV>,
    w: Seq<(Seq<Seq<char>>, JsonV)>,
    pre: Seq<Seq<char>>,
    p: int,
)
    requires
        0 <= p < w.len(),
        w[p].0 == pre,
        forall|i: int| 0 <= i < p ==> !pre.is_prefix_of(#[trigger] w[i].0),
    ensures
        writes_below(c, w, pre) == writes_below(Some(w[p].1), w.skip(p + 1), pre),
    decreases p,
{
    if p == 0 {
        assert(pre.is_prefix_of(w[0].0)) by {
            assert(pre =~= w[0].0.subrange(0, pre.len() as int));
        }
        assert(w[0].0.skip(pre.len() as int) =~= Seq::<Seq<char>>::empty());
        assert(w.skip(1) =~= w.drop_first());
    } else {
        let rest = w.drop_first();
        assert(!pre.is_prefix_of(w[0].0));
        assert(rest[p - 1] == w[p]);
        assert forall|i: int| 0 <= i < p - 1 implies !pre.is_prefix_of(#[trigger] rest[i].0) by {
            assert(rest[i] == w[i + 1]);
        }
        lemma_writes_replace(c, rest, pre, p - 1);
        assert(rest.skip(p) =~= w.skip(p + 1));
    }
}

/// Writes that all lie strictly below `pre`, at least one of them: with
/// nothing at `pre` before, they start from an empty object; a value there
/// that is not an object makes them fail.
proof fn lemma_writes_start(x: JsonV, w: Seq<(Seq<Seq<char>>, JsonV)>, pre: Seq<Seq<char>>)
    requires
        exists|i: int| 0 <= i < w.len() && pre.is_prefix_of(#[trigger] w[i].0),
        forall|i: int|
            0 <= i < w.len() && pre.is_prefix_of(#[trigger] w[i].0) ==> w[i].0.len() > pre.len(),
    ensures
        writes_below(None, w, pre) == writes_below(Some(JsonV::Object(seq![])), w, pre),
        !(x is Object) ==> writes_below(Some(x), w, pre) is None,
    decreases w.len(),
{
    let rest = w.drop_first();
    if pre.is_prefix_of(w[0].0) {
        assert(w[0].0.len() > pre.len());
    } else {
        let i = choose|i: int| 0 <= i < w.len() && pre.is_prefix_of(#[trigger] w[i].0);
        assert(i > 0);
        assert(rest[i - 1] == w[i]);
        assert forall|j: int|
            0 <= j < rest.len() && pre.is_prefix_of(#[trigger] rest[j].0) implies rest[j].0.len()
            > pre.len() by {
            assert(rest[j] == w[j + 1]);
        }
        lemma_writes_start(x, rest, pre);
    }
}

/// Writes keep documents well formed.
proof fn lemma_writes_wf(c: Option<JsonV>, w: Seq<(Seq<Seq<char>>, JsonV)>, pre: Seq<Seq<char>>)
    requires
        c matches Some(x) ==> wf_json(x),
        forall|i: int| #![trigger w[i]] 0 <= i < w.len() ==> wf_json(w[i].1),
    ensures
        writes_below(c, w, pre) matches Some(Some(x)) ==> wf_json(x),
    decreases w.len(),
{
    if w.len() > 0 {
        let rest = w.drop_first();
        assert forall|i: int| #![trigger rest[i]] 0 <= i < rest.len() implies wf_json(rest[i].1) by {
            assert(rest[i] == w[i + 1]);
        }
        if pre.is_prefix_of(w[0].0) {
            let rp = w[0].0.skip(pre.len() as int);
            let child = match c {
                Some(x) => x,
                None => JsonV::Object(seq![]),
            };
            assert(wf_json(w[0].1));
            assert(wf_json(child)) by {
                if c is None {
                    assert(wf_json(JsonV::Object(seq![])));
                }
            }
            lemma_set_path_wf(child, rp, w[0].1);
            match step_child(c, rp, w[0].1) {
                Ok(c2) => lemma_writes_wf(Some(c2), rest, pre),
                Err(_) => {},
            }
        } else {
            lemma_writes_wf(c, rest, pre);
        }
    }
}

/// `pre` followed by `k` begins `path` exactly when `pre` does and the next
/// segment of `path` is `k`.
proof fn lemma_prefix_push(pre: Seq<Seq<char>>, path: Seq<Seq<char>>, k: Seq<char>)
    ensures
        pre.push(k).is_prefix_of(path) == (pre.is_prefix_of(path) && path.len() > pre.len()
            && path[pre.len() as int] == k),
{
    let q = pre.push(k);
    if q.is_prefix_of(path) {
        assert(pre =~= path.subrange(0, pre.len() as int)) by {
            assert forall|m: int| 0 <= m < pre.len() implies pre[m] == path[m] by {
                assert(q[m] == path.subrange(0, q.len() as int)[m]);
            }
        }
        assert(q[pre.len() as int] == path.subrange(0, q.len() as int)[pre.len() as int]);
    }
    if pre.is_prefix_of(path) && path.len() > pre.len() && path[pre.len() as int] == k {
        assert forall|m: int| 0 <= m < q.len() implies q[m] == path[m] by {
            if m < pre.len() {
                assert(pre[m] == path.subrange(0, pre.len() as int)[m]);
            }
        }
        assert(q =~= path.subrange(0, q.len() as int));
    }
}

/// Writes strictly below `pre` on an object work key by key: the value under
/// each key comes from its value before alone, and the writes succeed when
/// they do under every key.
proof fn lemma_writes_by_key(
    e: Seq<(Seq<char>, JsonV)>,
    w: Seq<(Seq<Seq<char>>, JsonV)>,
    pre: Seq<Seq<char>>,
)
    requires
        forall|i: int|
            0 <= i < w.len() && pre.is_prefix_of(#[trigger] w[i].0) ==> w[i].0.len() > pre.len(),
    ensures
        writes_below(Some(JsonV::Object(e)), w, pre) matches Some(r) ==> (r matches Some(
            JsonV::Object(e2),
        ) && forall|k: Seq<char>|
            writes_below(entry_get(e, k), w, pre.push(k)) == Some(#[trigger] entry_get(e2, k))),
        (forall|k: Seq<char>| #[trigger] writes_below(entry_get(e, k), w, pre.push(k)) is Some)
            ==> writes_below(Some(JsonV::Object(e)), w, pre) is Some,
    decreases w.len(),
{
    if w.len() > 0 {
        let rest = w.drop_first();
        assert forall|i: int|
            0 <= i < rest.len() && pre.is_prefix_of(#[trigger] rest[i].0) implies rest[i].0.len()
            > pre.len() by {
            assert(rest[i] == w[i + 1]);
        }
        let path = w[0].0;
        let v = w[0].1;
        if !pre.is_prefix_of(path) {
            lemma_writes_by_key(e, rest, pre);
            assert forall|k: Seq<char>|
                writes_below(entry_get(e, k), w, pre.push(k)) == writes_below(
                    #[trigger] entry_get(e, k),
                    rest,
                    pre.push(k),
                ) by {
                lemma_prefix_push(pre, path, k);
            }
        } else {
            assert(path.len() > pre.len());
            let rp = path.skip(pre.len() as int);
            let k0 = rp[0];
            assert(k0 == path[pre.len() as int]);
            assert(rp.drop_first() =~= path.skip(pre.len() as int + 1));
            lemma_set_path_object(e, rp, v);
            lemma_prefix_push(pre, path, k0);
            assert(pre.push(k0).len() == pre.len() + 1);
            match step_child(entry_get(e, k0), rp.drop_first(), v) {
                Ok(c) => {
                    let e2 = entry_insert(e, k0, c);
                    lemma_writes_by_key(e2, rest, pre);
                    lemma_get_insert_same(e, k0, c);
                    assert forall|k: Seq<char>|
                        writes_below(entry_get(e, k), w, pre.push(k)) == writes_below(
                            #[trigger] entry_get(e2, k),
                            rest,
                            pre.push(k),
                        ) by {
                        lemma_prefix_push(pre, path, k);
                        if k != k0 {
                            lemma_get_insert_other(e, k0, c, k);
                        }
                    }
                },
                Err(_) => {
                    assert(writes_below(entry_get(e, k0), w, pre.push(k0)) is None);
                },
            }
        }
    }
}

/// Two values under a key are the same: both absent, or both present and the
/// same.
pub open spec fn same_opt(a: Option<JsonV>, b: Option<JsonV>) -> bool {
    match (a, b) {
        (None, None) => true,
        (Some(x), Some(y)) => same(x, y),
        _ => false,
    }
}

/// Objects with distinct keys that give every key the same value (or none)
/// are the same document.
proof fn lemma_same_by_key_same(e1: Seq<(Seq<char>, JsonV)>, e2: Seq<(Seq<char>, JsonV)>)
    requires
        wf_json(JsonV::Object(e1)),
        wf_json(JsonV::Object(e2)),
        forall|k: Seq<char>| #[trigger] same_opt(entry_get(e1, k), entry_get(e2, k)),
    ensures
        same(JsonV::Object(e1), JsonV::Object(e2)),
{
    let ks1 = keys_of(e1);
    let ks2 = keys_of(e2);
    assert(ks1.no_duplicates()) by {
        assert forall|i: int, j: int| 0 <= i < ks1.len() && 0 <= j < ks1.len() && i != j implies ks1[i]
            != ks1[j] by {
            if i < j {
                assert(e1[i].0 != e1[j].0);
            } else {
                assert(e1[j].0 != e1[i].0);
            }
        }
    }
    assert(ks2.no_duplicates()) by {
        assert forall|i: int, j: int| 0 <= i < ks2.len() && 0 <= j < ks2.len() && i != j implies ks2[i]
            != ks2[j] by {
            if i < j {
                assert(e2[i].0 != e2[j].0);
            } else {
                assert(e2[j].0 != e2[i].0);
            }
        }
    }
    assert(ks1.to_set() =~= ks2.to_set()) by {
        assert forall|k: Seq<char>| ks1.to_set().contains(k) == ks2.to_set().contains(k) by {
            lemma_keys_of_contains(e1, k);
            lemma_keys_of_contains(e2, k);
            assert(same_opt(entry_get(e1, k), entry_get(e2, k)));
        }
    }
    ks1.unique_seq_to_set();
    ks2.unique_seq_to_set();
    assert forall|i: int| #![trigger e1[i]] 0 <= i < e1.len() implies match entry_get(e2, e1[i].0) {
        Some(v) => same(e1[i].1, v),
        None => false,
    } by {
        assert forall|q: int| 0 <= q < i implies (#[trigger] e1[q]).0 != e1[i].0 by {}
        lemma_key_index(e1, e1[i].0, i);
        assert(same_opt(entry_get(e1, e1[i].0), entry_get(e2, e1[i].0)));
    }
}

/// The length of the longest path among the writes.
spec fn max_path_len(w: Seq<(Seq<Seq<char>>, JsonV)>) -> nat
    decreases w.len(),
{
    if w.len() == 0 {
        0
    } else {
        let m = max_path_len(w.drop_first());
        if w[0].0.len() > m {
            w[0].0.len()
        } else {
            m
        }
    }
}

proof fn lemma_max_path_len(w: Seq<(Seq<Seq<char>>, JsonV)>)
    ensures
        forall|i: int| 0 <= i < w.len() ==> (#[trigger] w[i]).0.len() <= max_path_len(w),
    decreases w.len(),
{
    if w.len() > 0 {
        lemma_max_path_len(w.drop_first());
        assert forall|i: int| 0 <= i < w.len() implies (#[trigger] w[i]).0.len() <= max_path_len(w) by {
            if i > 0 {
                assert(w[i] == w.drop_first()[i - 1]);
            }
        }
    }
}

/// Index of the first write under `pre`, or the number of writes.
spec fn first_below(w: Seq<(Seq<Seq<char>>, JsonV)>, pre: Seq<Seq<char>>) -> int
    decreases w.len(),
{
    if w.len() == 0 {
        0
    } else if pre.is_prefix_of(w[0].0) {
        0
    } else {
        1 + first_below(w.drop_first(), pre)
    }
}

proof fn lemma_first_below(w: Seq<(Seq<Seq<char>>, JsonV)>, pre: Seq<Seq<char>>)
    ensures
        0 <= first_below(w, pre) <= w.len(),
        first_below(w, pre) < w.len() ==> pre.is_prefix_of(w[first_below(w, pre)].0),
        forall|i: int| 0 <= i < first_below(w, pre) ==> !pre.is_prefix_of(#[trigger] w[i].0),
    decreases w.len(),
{
    if w.len() > 0 && !pre.is_prefix_of(w[0].0) {
        let rest = w.drop_first();
        lemma_first_below(rest, pre);
        assert forall|i: int| 0 <= i < first_below(w, pre) implies !pre.is_prefix_of(
            #[trigger] w[i].0,
        ) by {
            if i > 0 {
                assert(w[i] == rest[i - 1]);
            }
        }
        if first_below(w, pre) < w.len() {
            assert(w[first_below(w, pre)] == rest[first_below(rest, pre)]);
        }
    }
}

/// No write under `pre` is followed by one whose path begins its path.
spec fn ordered_below(w: Seq<(Seq<Seq<char>>, JsonV)>, pre: Seq<Seq<char>>) -> bool {
    forall|i: int, j: int|
        0 <= i < j < w.len() && pre.is_prefix_of(#[trigger] w[i].0) ==> !(#[trigger] w[j].0).is_prefix_of(
            w[i].0,
        )
}

/// Applying writes whose paths come in order a second time gives the same
/// document again.
proof fn lemma_writes_idempotent(
    c0: Option<JsonV>,
    w: Seq<(Seq<Seq<char>>, JsonV)>,
    pre: Seq<Seq<char>>,
)
    requires
        writes_below(c0, w, pre) is Some,
        ordered_below(w, pre),
        c0 matches Some(x) ==> wf_json(x),
        forall|i: int| #![trigger w[i]] 0 <= i < w.len() ==> wf_json(w[i].1),
        pre.len() <= max_path_len(w) + 1,
    ensures
        writes_below(writes_below(c0, w, pre)->0, w, pre) matches Some(c2) && same_opt(
            writes_below(c0, w, pre)->0,
            c2,
        ),
    decreases max_path_len(w) + 1 - pre.len(),
{
    let c1 = writes_below(c0, w, pre)->0;
    lemma_writes_wf(c0, w, pre);
    lemma_first_below(w, pre);
    let p = first_below(w, pre);
    if p == w.len() {
        lemma_writes_skip(c0, w, pre);
        lemma_writes_skip(c1, w, pre);
        match c0 {
            Some(x) => law_same_is_reflexive(x),
            None => {},
        }
    } else if w[p].0.len() == pre.len() {
        assert(w[p].0 =~= pre) by {
            assert(pre =~= w[p].0.subrange(0, pre.len() as int));
        }
        lemma_writes_replace(c0, w, pre, p);
        lemma_writes_replace(c1, w, pre, p);
        match c1 {
            Some(x) => law_same_is_reflexive(x),
            None => {},
        }
    } else {
        assert forall|i: int|
            0 <= i < w.len() && pre.is_prefix_of(#[trigger] w[i].0) implies w[i].0.len()
            > pre.len() by {
            if i > p && w[i].0.len() <= pre.len() {
                assert(w[i].0 =~= pre) by {
                    assert(pre =~= w[i].0.subrange(0, pre.len() as int));
                }
                assert(!w[i].0.is_prefix_of(w[p].0));
            }
        }
        lemma_max_path_len(w);
        assert(w[p].0.len() <= max_path_len(w));
        lemma_writes_start(JsonV::Null, w, pre);
        let e = match c0 {
            Some(JsonV::Object(e)) => e,
            _ => seq![],
        };
        match c0 {
            Some(x) => {
                lemma_writes_start(x, w, pre);
            },
            None => {},
        }
        assert(writes_below(c0, w, pre) == writes_below(Some(JsonV::Object(e)), w, pre));
        assert(wf_json(JsonV::Object(e)));
        lemma_writes_by_key(e, w, pre);
        let e1 = match c1 {
            Some(JsonV::Object(e1)) => e1,
            _ => seq![],
        };
        assert forall|k: Seq<char>|
            writes_below(#[trigger] entry_get(e1, k), w, pre.push(k)) matches Some(c2) && same_opt(
                entry_get(e1, k),
                c2,
            ) by {
            assert forall|i: int, j: int|
                0 <= i < j < w.len() && pre.push(k).is_prefix_of(
                    #[trigger] w[i].0,
                ) implies !(#[trigger] w[j].0).is_prefix_of(w[i].0) by {
                lemma_prefix_push(pre, w[i].0, k);
            }
            lemma_get_wf(e, k);
            lemma_writes_idempotent(entry_get(e, k), w, pre.push(k));
        }
        lemma_writes_by_key(e1, w, pre);
        let e2 = match writes_below(c1, w, pre)->0 {
            Some(JsonV::Object(e2)) => e2,
            _ => seq![],
        };
        assert forall|k: Seq<char>| #[trigger] same_opt(entry_get(e1, k), entry_get(e2, k)) by {
            assert(writes_below(entry_get(e1, k), w, pre.push(k)) == Some(entry_get(e2, k)));
        }
        lemma_writes_wf(c1, w, pre);
        lemma_same_by_key_same(e1, e2);
    }
}

/// The patch entries under a runtime-owned key come in order: none is
/// followed by an entry whose path begins its own path. A patch in key
/// order always is: a key sorts before the keys inside it.
spec fn runtime_paths_ordered(patch: Seq<(Seq<char>, JsonV)>) -> bool {
    forall|i: int, j: int|
        0 <= i < j < patch.len() && is_runtime_key(first_segment(#[trigger] patch[i].0)) ==> !split(
            #[trigger] patch[j].0,
            '.',
        ).is_prefix_of(split(patch[i].0, '.'))
}

/// Applying a theme twice writes nothing the second time, also when its
/// patch reaches into the keys the running shell owns: with the patched
/// `shell.json` as the live file, the document that comes out is the same
/// (the same keys with the same values, as serde_json compares documents)
/// as the one already written. The patch's keys come in ascending order, as
/// `[shell].patch` holds them.
pub proof fn law_shell_reapply_writes_nothing(
    baseline: JsonV,
    live: JsonV,
    patch: Seq<(Seq<char>, JsonV)>,
)
    requires
        wf_json(baseline),
        wf_json(live),
        forall|i: int| #![trigger patch[i]] 0 <= i < patch.len() ==> wf_json(patch[i].1),
        keys_ascending(patch),
        spec_shell_document(baseline, Some(live), patch) is Ok,
    ensures
        ({
            let d1 = spec_shell_document(baseline, Some(live), patch)->Ok_0;
            spec_shell_document(baseline, Some(d1), patch) matches Ok(d2) && same(d1, d2)
        }),
{
    assert(runtime_paths_ordered(patch)) by {
        assert forall|i: int, j: int|
            0 <= i < j < patch.len() && is_runtime_key(
                first_segment(#[trigger] patch[i].0),
            ) implies !split(#[trigger] patch[j].0, '.').is_prefix_of(split(patch[i].0, '.')) by {
            if split(patch[j].0, '.').is_prefix_of(split(patch[i].0, '.')) {
                lemma_split_prefix(patch[i].0, patch[j].0, '.');
                lemma_str_lt_prefix(patch[i].0, patch[j].0);
                assert(str_lt(patch[i].0, patch[j].0));
            }
        }
    }
    let d1 = spec_shell_document(baseline, Some(live), patch)->Ok_0;
    law_shell_document_well_formed(baseline, Some(live), patch);
    match baseline {
        JsonV::Object(eb) => {
            let s1 = carry_runtime(baseline, live);
            let s2 = carry_runtime(baseline, d1);
            lemma_carry_key_wf(baseline, live, "plugins"@);
            lemma_carry_key_wf(carry_key(baseline, live, "plugins"@), live, "disabledPlugins"@);
            lemma_carry_runtime_get(baseline, live, seq![]);
            lemma_carry_runtime_get(baseline, d1, seq![]);
            let e1 = match s1 {
                JsonV::Object(e) => e,
                _ => seq![],
            };
            let e2 = match s2 {
                JsonV::Object(e) => e,
                _ => seq![],
            };
            let x1 = match d1 {
                JsonV::Object(x) => x,
                _ => seq![],
            };
            lemma_patches_by_key(e1, patch);
            let w = writes_of(patch);
            assert forall|i: int| #![trigger w[i]] 0 <= i < w.len() implies wf_json(w[i].1) by {
                assert(w[i].1 == patch[i].1);
            }
            assert forall|k: Seq<char>|
                #[trigger] child_patches(entry_get(e2, k), patch, k) matches Some(c2) && same_opt(
                    get_key(d1, k),
                    c2,
                ) by {
                lemma_carry_runtime_get(baseline, live, k);
                lemma_carry_runtime_get(baseline, d1, k);
                assert(child_patches(entry_get(e1, k), patch, k) == Some(get_key(d1, k)));
                lemma_get_wf(x1, k);
                if is_runtime_key(k) {
                    lemma_get_wf(e1, k);
                    lemma_child_patches_writes(entry_get(e1, k), patch, k);
                    lemma_child_patches_writes(get_key(d1, k), patch, k);
                    assert forall|i: int, j: int|
                        0 <= i < j < w.len() && seq![k].is_prefix_of(
                            #[trigger] w[i].0,
                        ) implies !(#[trigger] w[j].0).is_prefix_of(w[i].0) by {
                        assert(w[i].0 == split(patch[i].0, '.'));
                        assert(w[j].0 == split(patch[j].0, '.'));
                        assert(seq![k][0] == w[i].0.subrange(0, 1)[0]);
                    }
                    lemma_writes_idempotent(entry_get(e1, k), w, seq![k]);
                } else {
                    match get_key(d1, k) {
                        Some(v) => law_same_is_reflexive(v),
                        None => {},
                    }
                }
            }
            lemma_patches_by_key(e2, patch);
            let d2 = apply_patches(s2, patch)->Ok_0;
            law_shell_document_well_formed(baseline, Some(d1), patch);
            let x2 = match d2 {
                JsonV::Object(x) => x,
                _ => seq![],
            };
            assert forall|k: Seq<char>| #[trigger] same_opt(entry_get(x1, k), entry_get(x2, k)) by {
                assert(child_patches(entry_get(e2, k), patch, k) == Some(get_key(d2, k)));
            }
            lemma_same_by_key_same(x1, x2);
        },
        _ => {
            assert(carry_runtime(baseline, live) == baseline);
            assert(carry_runtime(baseline, d1) == baseline);
            if patch.len() > 0 {
                assert(spec_set_dotted(baseline, patch[0].0, patch[0].1) is Err);
            }
            law_same_is_reflexive(baseline);
        },
    }
}

// ---------------------------------------------------------------------------
// What `same` keeps
// ---------------------------------------------------------------------------

/// When two objects are the same, a key of the first has a value in the
/// second that is the same as its own.
proof fn lemma_same_get(c: JsonV, d: JsonV, k: Seq<char>)
    requires
        same(c, d),
        get_key(c, k) is Some,
    ensures
        get_key(d, k) matches Some(w) && same(get_key(c, k)->0, w),
{
    match (c, d) {
        (JsonV::Object(x), JsonV::Object(y)) => {
            lemma_key_index_bounds(x, k);
            let i = key_index(x, k);
            assert(x[i].0 == k);
        },
        _ => {},
    }
}

/// Documents that are the same read alike at every path: where the first
/// holds `true`, `false`, `null` or a string, the second holds the very
/// same value, and where the first holds a number, the second holds the
/// same number or, for a floating-point zero, the zero of the other sign.
/// So two documents that differ in a boolean, a string or a number at some
/// path are not the same, and `shell.json` is written.
pub proof fn law_same_reads_alike(c: JsonV, d: JsonV, p: Seq<Seq<char>>)
    requires
        same(c, d),
    ensures
        path_get(c, p) matches Some(JsonV::Bool(a)) ==> path_get(d, p) == Some(JsonV::Bool(a)),
        path_get(c, p) matches Some(JsonV::Str(a)) ==> path_get(d, p) == Some(JsonV::Str(a)),
        path_get(c, p) == Some(JsonV::Null) ==> path_get(d, p) == Some(JsonV::Null),
        path_get(c, p) matches Some(JsonV::Number(x)) ==> (path_get(d, p) matches Some(
            JsonV::Number(y),
        ) && (y == x || (x == "0.0"@ && y == "-0.0"@) || (x == "-0.0"@ && y == "0.0"@))),
        path_get(c, p) is Some ==> path_get(d, p) is Some,
    decreases p.len(),
{
    if p.len() > 0 {
        if get_key(c, p[0]) is Some {
            lemma_same_get(c, d, p[0]);
            law_same_reads_alike(get_key(c, p[0])->0, get_key(d, p[0])->0, p.drop_first());
        }
    }
}

/// Two documents that differ in a boolean at the same path are not the
/// same: the one on disk is replaced.
pub proof fn law_differing_boolean_is_written(
    c: JsonV,
    d: JsonV,
    p: Seq<Seq<char>>,
    a: bool,
    b: bool,
)
    requires
        path_get(c, p) == Some(JsonV::Bool(a)),
        path_get(d, p) == Some(JsonV::Bool(b)),
        a != b,
    ensures
        !same(c, d),
{
    if same(c, d) {
        law_same_reads_alike(c, d, p);
    }
}

} // verus!
