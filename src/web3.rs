//! The Web3 format: a JSON object (as key/value pairs) with hex byte strings,
//! a `type` tag and a computed `cid`.

use vstd::prelude::*;
use vstd::string::*;
use crate::cid::entity_cid_bytes;
use crate::entity::{Entity, EntityKind, EntityView, ValueView, FieldValue, fits, fits_shape, empty_value, value_views};
use crate::hex::{hex_string, parse_hex, to_hex_string, from_hex_string};
use crate::order::lists;
use crate::schema::{Schema, Shape, KindDesc};
use crate::text::str_eq;

verus! {

/// A JSON value as the Web3 format reads it: null, a string, a list of
/// strings, or anything else.
#[derive(Clone, Debug, PartialEq, Eq)]
pub enum Web3Value {
    Null,
    Str(String),
    List(Vec<String>),
    Other,
}

pub enum Web3View {
    Null,
    Str(Seq<char>),
    List(Seq<Seq<char>>),
    Other,
}

pub open spec fn strings(l: Seq<String>) -> Seq<Seq<char>> {
    l.map_values(|s: String| s@)
}

impl View for Web3Value {
    type V = Web3View;

    open spec fn view(&self) -> Web3View {
        match self {
            Web3Value::Null => Web3View::Null,
            Web3Value::Str(s) => Web3View::Str(s@),
            Web3Value::List(l) => Web3View::List(strings(l@)),
            Web3Value::Other => Web3View::Other,
        }
    }
}

/// The keys and values of a JSON object, in the order they appear.
pub open spec fn pairs(obj: Seq<(String, Web3Value)>) -> Seq<(Seq<char>, Web3View)> {
    obj.map_values(|p: (String, Web3Value)| (p.0@, p.1@))
}

/// Why a JSON object is not the Web3 form of an entity; each names the key.
#[derive(Clone, Debug, PartialEq, Eq)]
pub enum FormatError {
    UnknownField(String),
    DuplicateField(String),
    MissingField(String),
    InvalidValue(String),
    UnknownKind(String),
}

pub open spec fn type_key() -> Seq<char> {
    seq!['t', 'y', 'p', 'e']
}

pub open spec fn cid_key() -> Seq<char> {
    seq!['c', 'i', 'd']
}

/// Keys that are not fields: the kind tag and the computed CID.
pub open spec fn is_reserved(k: Seq<char>) -> bool {
    crate::schema::is_reserved_name(k)
}

/// The Web3 form of a field value: `0x` hex strings, null for an absent
/// optional field, a list for a repeated field.
pub open spec fn value_web3(v: ValueView) -> Web3View {
    match v {
        ValueView::Required(b) => Web3View::Str(hex_string(b)),
        ValueView::Optional(Some(b)) => Web3View::Str(hex_string(b)),
        ValueView::Optional(None) => Web3View::Null,
        ValueView::Repeated(l) => Web3View::List(l.map_values(|b: Seq<u8>| hex_string(b))),
    }
}

/// The list of byte strings that a list of hex strings stands for.
pub open spec fn parse_hex_list(l: Seq<Seq<char>>) -> Option<Seq<Seq<u8>>>
    decreases l.len(),
{
    if l.len() == 0 {
        Some(Seq::empty())
    } else {
        match (parse_hex(l[0]), parse_hex_list(l.drop_first())) {
            (Some(b), Some(rest)) => Some(seq![b] + rest),
            _ => None,
        }
    }
}

/// The field value a Web3 value stands for, for a field of the given shape.
pub open spec fn parse_value(shape: Shape, v: Web3View) -> Option<ValueView> {
    match shape {
        Shape::Required => match v {
            Web3View::Str(s) => match parse_hex(s) {
                Some(b) => Some(ValueView::Required(b)),
                None => None,
            },
            _ => None,
        },
        Shape::Optional => match v {
            Web3View::Null => Some(ValueView::Optional(None)),
            Web3View::Str(s) => match parse_hex(s) {
                Some(b) => Some(ValueView::Optional(Some(b))),
                None => None,
            },
            _ => None,
        },
        Shape::Repeated => match v {
            Web3View::List(l) => match parse_hex_list(l) {
                Some(bs) => Some(ValueView::Repeated(bs)),
                None => None,
            },
            _ => None,
        },
    }
}

pub open spec fn has_key(obj: Seq<(Seq<char>, Web3View)>, k: Seq<char>) -> bool {
    exists|t: int| 0 <= t < obj.len() && #[trigger] obj[t].0 == k
}

pub open spec fn is_field_name(kind: KindDesc, k: Seq<char>) -> bool {
    exists|j: int| 0 <= j < kind.fields@.len() && #[trigger] kind.fields@[j].name@ == k
}

/// `obj` is the Web3 form of `e`: one `type` key, whose value is the name of
/// `e`'s kind; every other key is `cid` or a field of the kind, and no field
/// key comes twice; each field key holds the field's value; a field whose key
/// does not come is not required and is empty. The `cid` key plays no part.
pub open spec fn web3_decodes(schema: Schema, obj: Seq<(Seq<char>, Web3View)>, e: EntityView) -> bool {
    let kind = schema.kinds@[e.kind as int];
    &&& fits(schema, e)
    &&& exists|t: int| 0 <= t < obj.len() && #[trigger] obj[t] == (type_key(), Web3View::Str(kind.name@))
    &&& forall|t1: int, t2: int|
        0 <= t1 < obj.len() && 0 <= t2 < obj.len() && #[trigger] obj[t1].0 == type_key() && #[trigger] obj[t2].0 == type_key() ==> t1 == t2
    &&& forall|t: int| 0 <= t < obj.len() && !is_reserved(#[trigger] obj[t].0) ==> is_field_name(kind, obj[t].0)
    &&& forall|t1: int, t2: int|
        0 <= t1 < t2 < obj.len() && !is_reserved(#[trigger] obj[t1].0) ==> obj[t1].0 != #[trigger] obj[t2].0
    &&& forall|t: int, j: int|
        0 <= t < obj.len() && 0 <= j < kind.fields@.len() && #[trigger] obj[t].0 == #[trigger] kind.fields@[j].name@ && !is_reserved(obj[t].0)
            ==> parse_value(kind.fields@[j].shape, obj[t].1) == Some(e.values[j])
    &&& forall|j: int|
        0 <= j < kind.fields@.len() && (is_reserved(#[trigger] kind.fields@[j].name@) || !has_key(obj, kind.fields@[j].name@))
            ==> kind.fields@[j].shape != Shape::Required && e.values[j] == empty_value(kind.fields@[j].shape)
}

/// The Web3 form of an entity: its kind's name under `type`, its CID in hex
/// under `cid`, then each field under its name.
pub open spec fn web3_object(schema: Schema, e: EntityView) -> Seq<(Seq<char>, Web3View)> {
    let kind = schema.kinds@[e.kind as int];
    seq![
        (type_key(), Web3View::Str(kind.name@)),
        (cid_key(), Web3View::Str(hex_string(entity_cid_bytes(schema, e)))),
    ] + Seq::new(
        kind.fields@.len(),
        |j: int| (kind.fields@[j].name@, value_web3(e.values[j])),
    )
}

fn hex_list(l: &Vec<Vec<u8>>) -> (r: Vec<String>)
    ensures
        strings(r@) == lists(l@).map_values(|b: Seq<u8>| hex_string(b)),
{
    let mut out: Vec<String> = Vec::new();
    let mut i: usize = 0;
    while i < l.len()
        invariant
            i <= l@.len(),
            strings(out@) == lists(l@).subrange(0, i as int).map_values(|b: Seq<u8>| hex_string(b)),
        decreases l@.len() - i,
    {
        let s = to_hex_string(&l[i]);
        let ghost before = out@;
        let ghost sv = s@;
        out.push(s);
        assert(strings(out@) =~= strings(before).push(sv));
        assert(lists(l@).subrange(0, i + 1).map_values(|b: Seq<u8>| hex_string(b)) =~= lists(l@).subrange(0, i as int).map_values(|b: Seq<u8>| hex_string(b)).push(sv));
        i = i + 1;
    }
    assert(lists(l@).subrange(0, l@.len() as int) =~= lists(l@));
    out
}

fn value_to_web3(v: &FieldValue) -> (r: Web3Value)
    ensures
        r@ == value_web3(v@),
{
    match v {
        FieldValue::Required(b) => Web3Value::Str(to_hex_string(b)),
        FieldValue::Optional(o) => match o {
            Some(b) => Web3Value::Str(to_hex_string(b)),
            None => Web3Value::Null,
        },
        FieldValue::Repeated(l) => Web3Value::List(hex_list(l)),
    }
}

impl Entity {
    /// The Web3 form of this entity: `type`, `cid`, then the fields in
    /// declaration order, byte strings as `0x` hex.
    pub fn to_web3(&self, schema: &Schema) -> (r: Vec<(String, Web3Value)>)
        requires
            fits(*schema, self@),
            self.values@.len() < 0x0fff_ffff_ffff_ffff,
        ensures
            pairs(r@) == web3_object(*schema, self@),
    {
        let kind = &schema.kinds[self.kind];
        let mut out: Vec<(String, Web3Value)> = Vec::new();
        proof {
            reveal_strlit("type");
            reveal_strlit("cid");
        }
        out.push((String::from_str("type"), Web3Value::Str(kind.name.clone())));
        let cid = self.to_bytes(schema);
        out.push((String::from_str("cid"), Web3Value::Str(to_hex_string(&cid))));
        let n = kind.fields.len();
        let mut i: usize = 0;
        let ghost head = pairs(out@);
        assert("type"@ =~= type_key());
        assert("cid"@ =~= cid_key());
        assert(head =~= seq![
            (type_key(), Web3View::Str(kind.name@)),
            (cid_key(), Web3View::Str(hex_string(entity_cid_bytes(*schema, self@)))),
        ]);
        let ghost f = |j: int| (kind.fields@[j].name@, value_web3(self@.values[j]));
        assert(pairs(out@) =~= head + Seq::new(0, f));
        while i < n
            invariant
                kind == schema.kinds@[self.kind as int],
                n == kind.fields@.len(),
                fits(*schema, self@),
                i <= n,
                pairs(out@) == head + Seq::new(i as nat, f),
                f == (|j: int| (kind.fields@[j].name@, value_web3(self@.values[j]))),
            decreases n - i,
        {
            let v = value_to_web3(&self.values[i]);
            let ghost before = out@;
            let pair = (kind.fields[i].name.clone(), v);
            let ghost pv = (pair.0@, pair.1@);
            out.push(pair);
            assert(pairs(out@) =~= pairs(before).push(pv));
            assert(Seq::new((i + 1) as nat, f) =~= Seq::new(i as nat, f).push(f(i as int)));
            i = i + 1;
        }
        assert(pairs(out@) =~= web3_object(*schema, self@));
        out
    }
}


/// The kinds of fault a Web3 object can have.
#[derive(Clone, Copy, Debug, PartialEq, Eq, Structural)]
pub enum FaultKind {
    UnknownKey,
    DuplicateKey,
    MissingKey,
    InvalidValue,
    UnknownKind,
}

/// The position of the field of the given name.
pub open spec fn field_position(kind: KindDesc, key: Seq<char>) -> int {
    choose|j: int| 0 <= j < kind.fields@.len() && #[trigger] kind.fields@[j].name@ == key
}

/// The fault of pair `t`, in the order the pairs are checked: a key that is
/// no field, a field key that came before, a value that does not read.
pub open spec fn pair_fault(kind: KindDesc, p: Seq<(Seq<char>, Web3View)>, t: int) -> Option<FaultKind> {
    let key = p[t].0;
    if is_reserved(key) {
        None
    } else if !is_field_name(kind, key) {
        Some(FaultKind::UnknownKey)
    } else if exists|u: int| 0 <= u < t && #[trigger] p[u].0 == key {
        Some(FaultKind::DuplicateKey)
    } else if parse_value(kind.fields@[field_position(kind, key)].shape, p[t].1) is None {
        Some(FaultKind::InvalidValue)
    } else {
        None
    }
}

/// The first faulty pair among the first `n`.
pub open spec fn first_fault(kind: KindDesc, p: Seq<(Seq<char>, Web3View)>, n: int) -> Option<(int, FaultKind)>
    decreases n,
{
    if n <= 0 {
        None
    } else {
        match first_fault(kind, p, n - 1) {
            Some(x) => Some(x),
            None => match pair_fault(kind, p, n - 1) {
                Some(f) => Some((n - 1, f)),
                None => None,
            },
        }
    }
}

/// Field `j` is required and has no key of its own.
pub open spec fn missing_required(kind: KindDesc, p: Seq<(Seq<char>, Web3View)>, j: int) -> bool {
    kind.fields@[j].shape == Shape::Required && (is_reserved(kind.fields@[j].name@) || !has_key(p, kind.fields@[j].name@))
}

/// The first missing required field among the first `n`.
pub open spec fn first_missing(kind: KindDesc, p: Seq<(Seq<char>, Web3View)>, n: int) -> Option<int>
    decreases n,
{
    if n <= 0 {
        None
    } else {
        match first_missing(kind, p, n - 1) {
            Some(x) => Some(x),
            None => if missing_required(kind, p, n - 1) {
                Some(n - 1)
            } else {
                None
            },
        }
    }
}

/// The fault of an object whose `type` names `kind`: the first faulty pair,
/// else the first missing required field.
pub open spec fn kind_fault(kind: KindDesc, p: Seq<(Seq<char>, Web3View)>) -> Option<(FaultKind, Seq<char>)> {
    match first_fault(kind, p, p.len() as int) {
        Some((t, f)) => Some((f, p[t].0)),
        None => match first_missing(kind, p, kind.fields@.len() as int) {
            Some(j) => Some((FaultKind::MissingKey, kind.fields@[j].name@)),
            None => None,
        },
    }
}

/// The fault `from_web3` reports, and the key it names: no `type` key, a
/// second `type` key, a `type` value that is no string, a `type` that names
/// no kind; then the fault of the object for that kind.
pub open spec fn web3_fault(schema: Schema, p: Seq<(Seq<char>, Web3View)>) -> Option<(FaultKind, Seq<char>)> {
    if !has_key(p, type_key()) {
        Some((FaultKind::MissingKey, type_key()))
    } else if exists|t1: int, t2: int| 0 <= t1 < t2 < p.len() && #[trigger] p[t1].0 == type_key() && #[trigger] p[t2].0 == type_key() {
        Some((FaultKind::DuplicateKey, type_key()))
    } else {
        let t0 = choose|t: int| 0 <= t < p.len() && #[trigger] p[t].0 == type_key();
        match p[t0].1 {
            Web3View::Str(nm) => if exists|k: int| 0 <= k < schema.kinds@.len() && #[trigger] schema.kinds@[k].name@ == nm {
                let k = choose|k: int| 0 <= k < schema.kinds@.len() && #[trigger] schema.kinds@[k].name@ == nm;
                kind_fault(schema.kinds@[k], p)
            } else {
                Some((FaultKind::UnknownKind, nm))
            },
            _ => Some((FaultKind::InvalidValue, type_key())),
        }
    }
}

/// `e` is the error for fault `f` at key `key`.
pub open spec fn error_is(e: FormatError, f: FaultKind, key: Seq<char>) -> bool {
    match e {
        FormatError::UnknownField(s) => f == FaultKind::UnknownKey && s@ == key,
        FormatError::DuplicateField(s) => f == FaultKind::DuplicateKey && s@ == key,
        FormatError::MissingField(s) => f == FaultKind::MissingKey && s@ == key,
        FormatError::InvalidValue(s) => f == FaultKind::InvalidValue && s@ == key,
        FormatError::UnknownKind(s) => f == FaultKind::UnknownKind && s@ == key,
    }
}

proof fn lemma_first_fault_sticks(kind: KindDesc, p: Seq<(Seq<char>, Web3View)>, m: int, n: int)
    requires
        0 <= m <= n,
        first_fault(kind, p, m) is Some,
    ensures
        first_fault(kind, p, n) == first_fault(kind, p, m),
    decreases n - m,
{
    if n > m {
        lemma_first_fault_sticks(kind, p, m, n - 1);
    }
}

proof fn lemma_first_missing_sticks(kind: KindDesc, p: Seq<(Seq<char>, Web3View)>, m: int, n: int)
    requires
        0 <= m <= n,
        first_missing(kind, p, m) is Some,
    ensures
        first_missing(kind, p, n) == first_missing(kind, p, m),
    decreases n - m,
{
    if n > m {
        lemma_first_missing_sticks(kind, p, m, n - 1);
    }
}

fn type_string() -> (r: String)
    ensures
        r@ == type_key(),
{
    proof {
        reveal_strlit("type");
    }
    let r = String::from_str("type");
    assert(r@ =~= type_key());
    r
}

fn is_reserved_key(k: &str) -> (r: bool)
    ensures
        r == is_reserved(k@),
{
    crate::schema::reserved_name(k)
}

/// Finds the one `type` key.
fn find_type(obj: &Vec<(String, Web3Value)>) -> (r: Result<usize, FormatError>)
    ensures
        r matches Ok(t0) ==> t0 < obj@.len() && pairs(obj@)[t0 as int].0 == type_key() && forall|t: int|
            0 <= t < obj@.len() && #[trigger] pairs(obj@)[t].0 == type_key() ==> t == t0,
        r matches Err(e) ==> (e matches FormatError::DuplicateField(k) && k@ == type_key() && exists|t1: int, t2: int|
            0 <= t1 < t2 < obj@.len() && #[trigger] pairs(obj@)[t1].0 == type_key() && #[trigger] pairs(obj@)[t2].0 == type_key())
            || (e matches FormatError::MissingField(k) && k@ == type_key() && !has_key(pairs(obj@), type_key())),
{
    let ghost p = pairs(obj@);
    let mut found: Option<usize> = None;
    let mut t: usize = 0;
    while t < obj.len()
        invariant
            t <= obj@.len(),
            p == pairs(obj@),
            match found {
                Some(t0) => t0 < t && p[t0 as int].0 == type_key() && forall|u: int| 0 <= u < t && #[trigger] p[u].0 == type_key() ==> u == t0,
                None => forall|u: int| 0 <= u < t ==> #[trigger] p[u].0 != type_key(),
            },
        decreases obj@.len() - t,
    {
        assert(p[t as int].0 == obj@[t as int].0@);
        if is_reserved_key(obj[t].0.as_str()) && str_eq(obj[t].0.as_str(), type_string().as_str()) {
            match found {
                Some(t0) => {
                    return Err(FormatError::DuplicateField(type_string()));
                },
                None => {
                    found = Some(t);
                },
            }
        }
        t = t + 1;
    }
    match found {
        Some(t0) => Ok(t0),
        None => Err(FormatError::MissingField(type_string())),
    }
}

/// The position of the field of the given name.
fn field_index(kind: &KindDesc, k: &str) -> (r: Option<usize>)
    ensures
        match r {
            Some(j) => j < kind.fields@.len() && kind.fields@[j as int].name@ == k@,
            None => !is_field_name(*kind, k@),
        },
{
    let mut j: usize = 0;
    while j < kind.fields.len()
        invariant
            j <= kind.fields@.len(),
            forall|u: int| 0 <= u < j ==> #[trigger] kind.fields@[u].name@ != k@,
        decreases kind.fields@.len() - j,
    {
        if str_eq(kind.fields[j].name.as_str(), k) {
            return Some(j);
        }
        j = j + 1;
    }
    None
}

fn parse_hex_strings(l: &Vec<String>) -> (r: Option<Vec<Vec<u8>>>)
    ensures
        match parse_hex_list(strings(l@)) {
            Some(bs) => r matches Some(v) && lists(v@) == bs,
            None => r is None,
        },
{
    let mut out: Vec<Vec<u8>> = Vec::new();
    let mut i: usize = 0;
    proof {
        assert(strings(l@).subrange(0, strings(l@).len() as int) =~= strings(l@));
        match parse_hex_list(strings(l@)) {
            Some(x) => {
                assert(lists(out@) + x =~= x);
            },
            None => {},
        }
    }
    while i < l.len()
        invariant
            i <= l@.len(),
            parse_hex_list(strings(l@)) == match parse_hex_list(strings(l@).subrange(i as int, l@.len() as int)) {
                Some(rest) => Some(lists(out@) + rest),
                None => None,
            },
        decreases l@.len() - i,
    {
        let ghost u = strings(l@).subrange(i as int, l@.len() as int);
        assert(u.drop_first() =~= strings(l@).subrange(i + 1, l@.len() as int));
        assert(u[0] == l@[i as int]@);
        let b = match from_hex_string(l[i].as_str()) {
            Some(b) => b,
            None => {
                return None;
            },
        };
        proof {
            match parse_hex_list(u.drop_first()) {
                Some(rest) => {
                    assert(lists(out@) + (seq![b@] + rest) =~= lists(out@).push(b@) + rest);
                },
                None => {},
            }
        }
        let ghost before = out@;
        let ghost bv = b@;
        out.push(b);
        assert(lists(out@) =~= lists(before).push(bv));
        i = i + 1;
    }
    proof {
        assert(strings(l@).subrange(l@.len() as int, l@.len() as int) =~= Seq::<Seq<char>>::empty());
        assert(lists(out@) + Seq::<Seq<u8>>::empty() =~= lists(out@));
    }
    Some(out)
}

/// The field value a Web3 value stands for.
fn parse_web3_value(shape: Shape, v: &Web3Value) -> (r: Option<FieldValue>)
    ensures
        match parse_value(shape, v@) {
            Some(x) => r matches Some(y) && y@ == x,
            None => r is None,
        },
{
    match shape {
        Shape::Required => match v {
            Web3Value::Str(s) => match from_hex_string(s.as_str()) {
                Some(b) => Some(FieldValue::Required(b)),
                None => None,
            },
            _ => None,
        },
        Shape::Optional => match v {
            Web3Value::Null => Some(FieldValue::Optional(None)),
            Web3Value::Str(s) => match from_hex_string(s.as_str()) {
                Some(b) => Some(FieldValue::Optional(Some(b))),
                None => None,
            },
            _ => None,
        },
        Shape::Repeated => match v {
            Web3Value::List(l) => match parse_hex_strings(l) {
                Some(bs) => Some(FieldValue::Repeated(bs)),
                None => None,
            },
            _ => None,
        },
    }
}

proof fn lemma_parse_value_fits(shape: Shape, v: Web3View)
    ensures
        parse_value(shape, v) matches Some(x) ==> fits_shape(x, shape),
{
}

impl Entity {
    /// Reads the Web3 form of an entity. It succeeds exactly on the objects
    /// that are the Web3 form of an entity of the schema, and gives that
    /// entity; the `cid` key is ignored whatever it holds.
    pub fn from_web3(schema: &Schema, obj: &Vec<(String, Web3Value)>) -> (r: Result<Entity, FormatError>)
        requires
            schema.wf(),
        ensures
            r matches Ok(d) ==> web3_decodes(*schema, pairs(obj@), d@),
            forall|e: EntityView| #[trigger] web3_decodes(*schema, pairs(obj@), e) ==> (r matches Ok(d) && d@ == e),
            r matches Err(FormatError::UnknownField(k)) ==> has_key(pairs(obj@), k@) && !is_reserved(k@),
            r matches Err(FormatError::DuplicateField(k)) ==> exists|t1: int, t2: int|
                0 <= t1 < t2 < obj@.len() && #[trigger] pairs(obj@)[t1].0 == k@ && #[trigger] pairs(obj@)[t2].0 == k@,
            r matches Err(FormatError::MissingField(k)) ==> !has_key(pairs(obj@), k@) || is_reserved(k@),
            r matches Err(FormatError::InvalidValue(k)) ==> has_key(pairs(obj@), k@),
            r matches Err(FormatError::UnknownKind(k)) ==> forall|j: int|
                0 <= j < schema.kinds@.len() ==> #[trigger] schema.kinds@[j].name@ != k@,
            match web3_fault(*schema, pairs(obj@)) {
                Some((f, key)) => r matches Err(e) && error_is(e, f, key),
                None => r is Ok,
            },
    {
        let ghost p = pairs(obj@);
        let t0 = match find_type(obj) {
            Ok(t0) => t0,
            Err(err) => {
                proof {
                    assert forall|e: EntityView| #[trigger] web3_decodes(*schema, p, e) implies false by {
                        let t = choose|t: int| 0 <= t < p.len() && #[trigger] p[t] == (type_key(), Web3View::Str(schema.kinds@[e.kind as int].name@));
                        assert(p[t].0 == type_key());
                        if let FormatError::DuplicateField(_) = err {
                            let (t1, t2) = choose|t1: int, t2: int| 0 <= t1 < t2 < obj@.len() && #[trigger] pairs(obj@)[t1].0 == type_key() && #[trigger] pairs(obj@)[t2].0 == type_key();
                            assert(p[t1].0 == type_key() && p[t2].0 == type_key());
                        }
                    }
                    if let FormatError::DuplicateField(_) = err {
                        let (t1, t2) = choose|t1: int, t2: int| 0 <= t1 < t2 < obj@.len() && #[trigger] pairs(obj@)[t1].0 == type_key() && #[trigger] pairs(obj@)[t2].0 == type_key();
                        assert(has_key(p, type_key()));
                    }
                }
                return Err(err);
            },
        };
        assert(p[t0 as int] == (obj@[t0 as int].0@, obj@[t0 as int].1@));
        proof {
            assert(has_key(p, type_key()));
            assert(!exists|t1: int, t2: int| 0 <= t1 < t2 < p.len() && #[trigger] p[t1].0 == type_key() && #[trigger] p[t2].0 == type_key());
            let c = choose|t: int| 0 <= t < p.len() && #[trigger] p[t].0 == type_key();
            assert(c == t0);
        }
        let name = match &obj[t0].1 {
            Web3Value::Str(s) => s,
            _ => {
                proof {
                    assert forall|e: EntityView| #[trigger] web3_decodes(*schema, p, e) implies false by {
                        let t = choose|t: int| 0 <= t < p.len() && #[trigger] p[t] == (type_key(), Web3View::Str(schema.kinds@[e.kind as int].name@));
                        assert(p[t].0 == type_key());
                    }
                }
                return Err(FormatError::InvalidValue(type_string()));
            },
        };
        proof {
            assert forall|e: EntityView| #[trigger] web3_decodes(*schema, p, e) implies schema.kinds@[e.kind as int].name@ == name@ by {
                let t = choose|t: int| 0 <= t < p.len() && #[trigger] p[t] == (type_key(), Web3View::Str(schema.kinds@[e.kind as int].name@));
                assert(p[t].0 == type_key());
            }
        }
        let ek = match EntityKind::from_name(schema, name.as_str()) {
            Ok(k) => k,
            Err(_) => {
                return Err(FormatError::UnknownKind(name.clone()));
            },
        };
        let k = ek.index;
        proof {
            let k2 = choose|k2: int| 0 <= k2 < schema.kinds@.len() && #[trigger] schema.kinds@[k2].name@ == name@;
            if k2 != k {
                if k2 < k {
                    assert(schema.kinds@[k2].name@ != name@);
                } else {
                    assert(schema.kinds@[k as int].name@ != schema.kinds@[k2].name@);
                }
            }
            assert(web3_fault(*schema, p) == kind_fault(schema.kinds@[k as int], p));
        }
        proof {
            assert forall|e: EntityView| #[trigger] web3_decodes(*schema, p, e) implies e.kind == k by {
                if e.kind != k {
                    if e.kind < k {
                        assert(schema.kinds@[e.kind as int].name@ != name@);
                    } else {
                        assert(schema.kinds@[k as int].name@ != schema.kinds@[e.kind as int].name@);
                    }
                }
            }
        }
        let kind = &schema.kinds[k];
        let n = kind.fields.len();
        let mut slots: Vec<Option<FieldValue>> = Vec::new();
        let mut j: usize = 0;
        while j < n
            invariant
                j <= n,
                slots@.len() == j,
                forall|u: int| 0 <= u < j ==> #[trigger] slots@[u] is None,
            decreases n - j,
        {
            slots.push(None);
            j = j + 1;
        }
        let mut t: usize = 0;
        while t < obj.len()
            invariant
                k < schema.kinds@.len(),
                kind == schema.kinds@[k as int],
                n == kind.fields@.len(),
                schema.wf(),
                p == pairs(obj@),
                t <= obj@.len(),
                slots@.len() == n,
                forall|u: int| 0 <= u < n ==> match #[trigger] slots@[u] {
                    Some(v) => exists|t1: int| 0 <= t1 < t && #[trigger] p[t1].0 == kind.fields@[u].name@ && !is_reserved(p[t1].0) && parse_value(kind.fields@[u].shape, p[t1].1) == Some(v@),
                    None => forall|t1: int| 0 <= t1 < t ==> #[trigger] p[t1].0 != kind.fields@[u].name@ || is_reserved(p[t1].0),
                },
                forall|t1: int| 0 <= t1 < t && !is_reserved(#[trigger] p[t1].0) ==> is_field_name(*kind, p[t1].0),
                forall|t1: int, t2: int| 0 <= t1 < t2 < t && !is_reserved(#[trigger] p[t1].0) ==> p[t1].0 != #[trigger] p[t2].0,
                forall|e: EntityView| #[trigger] web3_decodes(*schema, p, e) ==> e.kind == k,
                first_fault(*kind, p, t as int) is None,
                web3_fault(*schema, p) == kind_fault(*kind, p),
            decreases obj@.len() - t,
        {
            assert(p[t as int] == (obj@[t as int].0@, obj@[t as int].1@));
            let key = obj[t].0.as_str();
            if !is_reserved_key(key) {
                let fj = match field_index(kind, key) {
                    Some(fj) => fj,
                    None => {
                        proof {
                            assert(p[t as int].0 == key@);
                            assert(pair_fault(*kind, p, t as int) == Some(FaultKind::UnknownKey));
                            lemma_first_fault_sticks(*kind, p, t + 1, p.len() as int);
                        }
                        return Err(FormatError::UnknownField(obj[t].0.clone()));
                    },
                };
                match &slots[fj] {
                    Some(_) => {
                        proof {
                            let t1 = choose|t1: int| 0 <= t1 < t && #[trigger] p[t1].0 == kind.fields@[fj as int].name@ && !is_reserved(p[t1].0) && parse_value(kind.fields@[fj as int].shape, p[t1].1) == Some(slots@[fj as int]->Some_0@);
                            assert(p[t1].0 == p[t as int].0);
                            assert(is_field_name(*kind, p[t as int].0));
                            assert(pair_fault(*kind, p, t as int) == Some(FaultKind::DuplicateKey));
                            lemma_first_fault_sticks(*kind, p, t + 1, p.len() as int);
                        }
                        return Err(FormatError::DuplicateField(obj[t].0.clone()));
                    },
                    None => {},
                }
                proof {
                    assert(p[t as int].0 == key@);
                    assert(is_field_name(*kind, p[t as int].0));
                    assert(!exists|u: int| 0 <= u < t && #[trigger] p[u].0 == p[t as int].0);
                    assert(kind.wf());
                    let c = field_position(*kind, p[t as int].0);
                    if c != fj {
                        if c < fj {
                            assert(kind.fields@[c].name@ != kind.fields@[fj as int].name@);
                        } else {
                            assert(kind.fields@[fj as int].name@ != kind.fields@[c].name@);
                        }
                    }
                }
                let v = match parse_web3_value(kind.fields[fj].shape, &obj[t].1) {
                    Some(v) => v,
                    None => {
                        proof {
                            assert(p[t as int].0 == key@);
                            assert forall|e: EntityView| #[trigger] web3_decodes(*schema, p, e) implies false by {
                                assert(p[t as int].0 == kind.fields@[fj as int].name@);
                            }
                            assert(pair_fault(*kind, p, t as int) == Some(FaultKind::InvalidValue));
                            lemma_first_fault_sticks(*kind, p, t + 1, p.len() as int);
                        }
                        return Err(FormatError::InvalidValue(obj[t].0.clone()));
                    },
                };
                let ghost old_slots = slots@;
                slots.set(fj, Some(v));
                proof {
                    assert(pair_fault(*kind, p, t as int) is None);
                    assert(first_fault(*kind, p, t + 1) is None);
                    assert forall|u: int| 0 <= u < n implies match #[trigger] slots@[u] {
                        Some(v) => exists|t1: int| 0 <= t1 < t + 1 && #[trigger] p[t1].0 == kind.fields@[u].name@ && !is_reserved(p[t1].0) && parse_value(kind.fields@[u].shape, p[t1].1) == Some(v@),
                        None => forall|t1: int| 0 <= t1 < t + 1 ==> #[trigger] p[t1].0 != kind.fields@[u].name@ || is_reserved(p[t1].0),
                    } by {
                        if u == fj {
                            assert(p[t as int].0 == kind.fields@[u].name@);
                        } else {
                            assert(kind.wf());
                            assert(kind.fields@[u].name@ != kind.fields@[fj as int].name@);
                            assert(old_slots[u] == slots@[u]);
                        }
                    }
                    assert forall|t1: int| 0 <= t1 < t + 1 && !is_reserved(#[trigger] p[t1].0) implies is_field_name(*kind, p[t1].0) by {
                        if t1 == t {
                            assert(kind.fields@[fj as int].name@ == p[t1].0);
                        }
                    }
                    assert forall|t1: int, t2: int| 0 <= t1 < t2 < t + 1 && !is_reserved(#[trigger] p[t1].0) implies p[t1].0 != #[trigger] p[t2].0 by {
                        if t2 == t {
                            if p[t1].0 == p[t2].0 {
                                assert(old_slots[fj as int] is None);
                                assert(p[t1].0 == kind.fields@[fj as int].name@);
                            }
                        }
                    }
                }
            } else {
                proof {
                    assert(pair_fault(*kind, p, t as int) is None);
                    assert(first_fault(*kind, p, t + 1) is None);
                    assert forall|u: int| 0 <= u < n implies match #[trigger] slots@[u] {
                        Some(v) => exists|t1: int| 0 <= t1 < t + 1 && #[trigger] p[t1].0 == kind.fields@[u].name@ && !is_reserved(p[t1].0) && parse_value(kind.fields@[u].shape, p[t1].1) == Some(v@),
                        None => forall|t1: int| 0 <= t1 < t + 1 ==> #[trigger] p[t1].0 != kind.fields@[u].name@ || is_reserved(p[t1].0),
                    } by {
                        match slots@[u] {
                            Some(v) => {
                                let t1 = choose|t1: int| 0 <= t1 < t && #[trigger] p[t1].0 == kind.fields@[u].name@ && !is_reserved(p[t1].0) && parse_value(kind.fields@[u].shape, p[t1].1) == Some(v@);
                                assert(0 <= t1 < t + 1);
                            },
                            None => {},
                        }
                    }
                }
            }
            t = t + 1;
        }
        let mut vals: Vec<FieldValue> = Vec::new();
        let mut j: usize = 0;
        while j < n
            invariant
                k < schema.kinds@.len(),
                kind == schema.kinds@[k as int],
                n == kind.fields@.len(),
                schema.wf(),
                p == pairs(obj@),
                slots@.len() == n,
                j <= n,
                vals@.len() == j,
                forall|e: EntityView| #[trigger] web3_decodes(*schema, p, e) ==> e.kind == k,
                forall|u: int| 0 <= u < n ==> match #[trigger] slots@[u] {
                    Some(v) => exists|t1: int| 0 <= t1 < obj@.len() && #[trigger] p[t1].0 == kind.fields@[u].name@ && !is_reserved(p[t1].0) && parse_value(kind.fields@[u].shape, p[t1].1) == Some(v@),
                    None => forall|t1: int| 0 <= t1 < obj@.len() ==> #[trigger] p[t1].0 != kind.fields@[u].name@ || is_reserved(p[t1].0),
                },
                forall|u: int| 0 <= u < j ==> match #[trigger] slots@[u] {
                    Some(v) => value_views(vals@)[u] == v@,
                    None => value_views(vals@)[u] == empty_value(kind.fields@[u].shape) && kind.fields@[u].shape != Shape::Required,
                },
                forall|u: int| 0 <= u < j ==> #[trigger] fits_shape(value_views(vals@)[u], kind.fields@[u].shape),
                first_fault(*kind, p, p.len() as int) is None,
                first_missing(*kind, p, j as int) is None,
                web3_fault(*schema, p) == kind_fault(*kind, p),
            decreases n - j,
        {
            let ghost before = vals@;
            match &slots[j] {
                Some(v) => {
                    let x = v.copy();
                    proof {
                        let t1 = choose|t1: int| 0 <= t1 < obj@.len() && #[trigger] p[t1].0 == kind.fields@[j as int].name@ && !is_reserved(p[t1].0) && parse_value(kind.fields@[j as int].shape, p[t1].1) == Some(v@);
                        lemma_parse_value_fits(kind.fields@[j as int].shape, p[t1].1);
                    }
                    vals.push(x);
                },
                None => {
                    if kind.fields[j].shape == Shape::Required {
                        proof {
                            assert forall|t1: int| 0 <= t1 < obj@.len() implies #[trigger] p[t1].0 != kind.fields@[j as int].name@ || is_reserved(kind.fields@[j as int].name@) by {
                            }
                            if !is_reserved(kind.fields@[j as int].name@) {
                                assert(!has_key(p, kind.fields@[j as int].name@));
                            }
                            assert forall|e: EntityView| #[trigger] web3_decodes(*schema, p, e) implies false by {
                                assert(e.kind == k);
                                let nm = kind.fields@[j as int].name@;
                                if !is_reserved(nm) && has_key(p, nm) {
                                    let t1 = choose|t1: int| 0 <= t1 < p.len() && #[trigger] p[t1].0 == nm;
                                    assert(p[t1].0 != kind.fields@[j as int].name@ || is_reserved(p[t1].0));
                                }
                            }
                            assert(missing_required(*kind, p, j as int));
                            lemma_first_missing_sticks(*kind, p, j + 1, n as int);
                        }
                        return Err(FormatError::MissingField(kind.fields[j].name.clone()));
                    }
                    vals.push(FieldValue::empty(kind.fields[j].shape));
                },
            }
            proof {
                if slots@[j as int] is Some {
                    let t1 = choose|t1: int| 0 <= t1 < obj@.len() && #[trigger] p[t1].0 == kind.fields@[j as int].name@ && !is_reserved(p[t1].0) && parse_value(kind.fields@[j as int].shape, p[t1].1) == Some(slots@[j as int]->Some_0@);
                    assert(has_key(p, kind.fields@[j as int].name@));
                }
                assert(!missing_required(*kind, p, j as int));
                assert(first_missing(*kind, p, j + 1) is None);
            }
            assert(value_views(vals@) =~= value_views(before).push(value_views(vals@)[j as int]));
            j = j + 1;
        }
        let d = Entity { kind: k, values: vals };
        proof {
            let dv = d@;
            assert(fits(*schema, dv));
            assert(p[t0 as int] == (type_key(), Web3View::Str(kind.name@)));
            assert forall|t1: int, u: int| 0 <= t1 < p.len() && 0 <= u < n && #[trigger] p[t1].0 == #[trigger] kind.fields@[u].name@ && !is_reserved(p[t1].0) implies parse_value(kind.fields@[u].shape, p[t1].1) == Some(dv.values[u]) by {
                match slots@[u] {
                    Some(v) => {
                        let t2 = choose|t2: int| 0 <= t2 < obj@.len() && #[trigger] p[t2].0 == kind.fields@[u].name@ && !is_reserved(p[t2].0) && parse_value(kind.fields@[u].shape, p[t2].1) == Some(v@);
                        if t1 < t2 {
                            assert(p[t1].0 != p[t2].0);
                        } else if t2 < t1 {
                            assert(p[t2].0 != p[t1].0);
                        }
                    },
                    None => {},
                }
            }
            assert forall|u: int| 0 <= u < n && (is_reserved(#[trigger] kind.fields@[u].name@) || !has_key(p, kind.fields@[u].name@)) implies kind.fields@[u].shape != Shape::Required && dv.values[u] == empty_value(kind.fields@[u].shape) by {
                match slots@[u] {
                    Some(v) => {
                        let t2 = choose|t2: int| 0 <= t2 < obj@.len() && #[trigger] p[t2].0 == kind.fields@[u].name@ && !is_reserved(p[t2].0) && parse_value(kind.fields@[u].shape, p[t2].1) == Some(v@);
                    },
                    None => {},
                }
            }
            assert(web3_decodes(*schema, p, dv));
            assert forall|e: EntityView| #[trigger] web3_decodes(*schema, p, e) implies dv == e by {
                assert(e.kind == k);
                assert forall|u: int| 0 <= u < n implies dv.values[u] == e.values[u] by {
                    let nm = kind.fields@[u].name@;
                    if !is_reserved(nm) && has_key(p, nm) {
                        let t1 = choose|t1: int| 0 <= t1 < p.len() && #[trigger] p[t1].0 == nm;
                        assert(p[t1].0 == kind.fields@[u].name@);
                    }
                }
                assert(dv.values =~= e.values);
            }
        }
        Ok(d)
    }
}
} // verus!
