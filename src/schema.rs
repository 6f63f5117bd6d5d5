//! The schema resource (kinds and their fields) and its compilation into
//! the record descriptions that every codec shares.

use vstd::prelude::*;
use vstd::string::*;
use crate::text::{str_eq, ends_with_brackets, str_ends_with_brackets};

verus! {

/// How a field holds its bytes.
#[derive(Clone, Copy, Debug, PartialEq, Eq, Structural)]
pub enum Shape {
    /// Exactly one byte string.
    Required,
    /// At most one byte string.
    Optional,
    /// Any number of byte strings, in order.
    Repeated,
}

/// The shape a field declaration stands for: a kind ending in `[]` is
/// repeated, otherwise the `required` flag decides.
pub open spec fn shape_of(kind: Seq<char>, required: bool) -> Shape {
    if ends_with_brackets(kind) {
        Shape::Repeated
    } else if required {
        Shape::Required
    } else {
        Shape::Optional
    }
}

/// One field declaration of the schema resource.
#[derive(Debug)]
pub struct Field {
    pub name: String,
    pub kind: String,
    pub required: bool,
}

impl Field {
    pub fn is_array_kind(&self) -> (r: bool)
        ensures
            r == ends_with_brackets(self.kind@),
    {
        str_ends_with_brackets(self.kind.as_str())
    }

    pub fn shape(&self) -> (r: Shape)
        ensures
            r == shape_of(self.kind@, self.required),
    {
        if self.is_array_kind() {
            Shape::Repeated
        } else if self.required {
            Shape::Required
        } else {
            Shape::Optional
        }
    }

    pub fn copy(&self) -> (r: Field)
        ensures
            r == *self,
    {
        Field { name: self.name.clone(), kind: self.kind.clone(), required: self.required }
    }
}

/// One kind declaration of the schema resource.
#[derive(Debug)]
pub struct Kind {
    pub name: String,
    pub fields: Vec<Field>,
    pub expression_kind: Option<String>,
    pub kind_id: u64,
    pub cid_prefix: u64,
    pub cid_prefix_hex: String,
}

/// The schema resource: the declared kinds, in order.
#[derive(Debug)]
pub struct Intermediate {
    pub kinds: Vec<Kind>,
}

/// A malformed schema; `kind` and `field` are positions in the declaration.
#[derive(Clone, Copy, Debug, PartialEq, Eq, Structural)]
pub enum SchemaError {
    EmptyKindName { kind: usize },
    DuplicateKindName { kind: usize },
    NonMonotonicKindId { kind: usize },
    UnknownFieldShape { kind: usize, field: usize },
    /// A field named `type` or `cid`, which the Web3 format keeps for itself.
    ReservedFieldName { kind: usize, field: usize },
    DuplicateFieldName { kind: usize, field: usize },
}

/// Fields whose content is literal payload rather than identity: the
/// `value` of an Annotation and the `target` of a (negative) data property
/// assertion.
pub open spec fn is_data_field(kind_name: Seq<char>, field_name: Seq<char>) -> bool {
    (kind_name == "Annotation"@ && field_name == "value"@) || (kind_name
        == "DataPropertyAssertion"@ && field_name == "target"@) || (kind_name
        == "NegativeDataPropertyAssertion"@ && field_name == "target"@)
}

pub fn data_field(kind_name: &str, field_name: &str) -> (r: bool)
    ensures
        r == is_data_field(kind_name@, field_name@),
{
    (str_eq(kind_name, "Annotation") && str_eq(field_name, "value")) || (str_eq(
        kind_name,
        "DataPropertyAssertion",
    ) && str_eq(field_name, "target")) || (str_eq(kind_name, "NegativeDataPropertyAssertion")
        && str_eq(field_name, "target"))
}

pub open spec fn cid_field_seq(kind_name: Seq<char>, fields: Seq<Field>) -> Seq<Field> {
    fields.filter(|f: Field| !is_data_field(kind_name, f.name@))
}

pub open spec fn data_field_seq(kind_name: Seq<char>, fields: Seq<Field>) -> Seq<Field> {
    fields.filter(|f: Field| is_data_field(kind_name, f.name@))
}

/// The identity-bearing fields of a kind, in declaration order.
pub fn get_cid_fields(kind_name: &str, fields: &Vec<Field>) -> (r: Vec<Field>)
    ensures
        r@ == cid_field_seq(kind_name@, fields@),
{
    let mut out: Vec<Field> = Vec::new();
    let mut i: usize = 0;
    while i < fields.len()
        invariant
            i <= fields@.len(),
            out@ == cid_field_seq(kind_name@, fields@.subrange(0, i as int)),
        decreases fields@.len() - i,
    {
        let ghost pred = |f: Field| !is_data_field(kind_name@, f.name@);
        proof {
            fields@.subrange(0, i as int).lemma_filter_push(fields@[i as int], pred);
            assert(fields@.subrange(0, i + 1) =~= fields@.subrange(0, i as int).push(
                fields@[i as int],
            ));
        }
        if !data_field(kind_name, fields[i].name.as_str()) {
            out.push(fields[i].copy());
        }
        i = i + 1;
    }
    assert(fields@.subrange(0, fields@.len() as int) =~= fields@);
    out
}

/// The literal-payload fields of a kind, in declaration order.
pub fn get_data_fields(kind_name: &str, fields: &Vec<Field>) -> (r: Vec<Field>)
    ensures
        r@ == data_field_seq(kind_name@, fields@),
{
    let mut out: Vec<Field> = Vec::new();
    let mut i: usize = 0;
    while i < fields.len()
        invariant
            i <= fields@.len(),
            out@ == data_field_seq(kind_name@, fields@.subrange(0, i as int)),
        decreases fields@.len() - i,
    {
        let ghost pred = |f: Field| is_data_field(kind_name@, f.name@);
        proof {
            fields@.subrange(0, i as int).lemma_filter_push(fields@[i as int], pred);
            assert(fields@.subrange(0, i + 1) =~= fields@.subrange(0, i as int).push(
                fields@[i as int],
            ));
        }
        if data_field(kind_name, fields[i].name.as_str()) {
            out.push(fields[i].copy());
        }
        i = i + 1;
    }
    assert(fields@.subrange(0, fields@.len() as int) =~= fields@);
    out
}

/// A field of a compiled kind.
#[derive(Debug)]
pub struct FieldDesc {
    pub name: String,
    pub shape: Shape,
    /// Whether the field bears the identity of the entity (a "cid field");
    /// otherwise it is a "data field".
    pub identity: bool,
}

/// A compiled kind: its name, numeric id, CID codec prefix and fields. The
/// position of a field is its tag (one more than its index) in the canonical
/// encoding and its slot in an ABI blob.
#[derive(Debug)]
pub struct KindDesc {
    pub name: String,
    pub id: u64,
    pub cid_prefix: u64,
    pub fields: Vec<FieldDesc>,
}

/// A compiled schema: the kinds, in declaration order.
#[derive(Debug)]
pub struct Schema {
    pub kinds: Vec<KindDesc>,
}

/// The names `type` and `cid`, which the Web3 format uses for the kind tag
/// and the computed CID.
pub open spec fn is_reserved_name(k: Seq<char>) -> bool {
    k == seq!['t', 'y', 'p', 'e'] || k == seq!['c', 'i', 'd']
}

pub fn reserved_name(k: &str) -> (r: bool)
    ensures
        r == is_reserved_name(k@),
{
    proof {
        reveal_strlit("type");
        reveal_strlit("cid");
        assert("type"@ =~= seq!['t', 'y', 'p', 'e']);
        assert("cid"@ =~= seq!['c', 'i', 'd']);
    }
    str_eq(k, "type") || str_eq(k, "cid")
}

impl KindDesc {
    /// Field names are distinct, and none is reserved.
    pub open spec fn wf(&self) -> bool {
        &&& forall|i: int, j: int|
            0 <= i < j < self.fields@.len() ==> self.fields@[i].name@ != self.fields@[j].name@
        &&& forall|i: int| 0 <= i < self.fields@.len() ==> !is_reserved_name(#[trigger] self.fields@[i].name@)
    }
}

impl Schema {
    /// Kind names are distinct, kind ids strictly increase, and field names
    /// are distinct within each kind.
    pub open spec fn wf(&self) -> bool {
        &&& forall|i: int, j: int|
            0 <= i < j < self.kinds@.len() ==> self.kinds@[i].name@ != self.kinds@[j].name@
        &&& forall|i: int, j: int|
            0 <= i < j < self.kinds@.len() ==> self.kinds@[i].id < self.kinds@[j].id
        &&& forall|k: int| 0 <= k < self.kinds@.len() ==> #[trigger] self.kinds@[k].wf()
    }

    pub open spec fn names(&self) -> Seq<Seq<char>> {
        self.kinds@.map_values(|d: KindDesc| d.name@)
    }
}

/// The compiled form of one field declaration.
pub open spec fn field_compiled(d: FieldDesc, kind_name: Seq<char>, f: Field) -> bool {
    &&& d.name@ == f.name@
    &&& d.shape == shape_of(f.kind@, f.required)
    &&& d.identity == !is_data_field(kind_name, f.name@)
}

/// The compiled form of one kind declaration.
pub open spec fn kind_compiled(d: KindDesc, k: Kind) -> bool {
    &&& d.name@ == k.name@
    &&& d.id == k.kind_id
    &&& d.cid_prefix == k.cid_prefix
    &&& d.fields@.len() == k.fields@.len()
    &&& forall|i: int|
        0 <= i < k.fields@.len() ==> #[trigger] field_compiled(
            d.fields@[i],
            k.name@,
            k.fields@[i],
        )
}

/// The compiled form of a schema resource.
pub open spec fn schema_compiled(s: Schema, inter: Intermediate) -> bool {
    &&& s.kinds@.len() == inter.kinds@.len()
    &&& forall|k: int|
        0 <= k < inter.kinds@.len() ==> #[trigger] kind_compiled(s.kinds@[k], inter.kinds@[k])
}

/// The first fault among the first `n` field declarations of kind `k`.
pub open spec fn field_error(k: int, fields: Seq<Field>, n: int) -> Option<SchemaError>
    decreases n,
{
    if n <= 0 {
        None
    } else {
        match field_error(k, fields, n - 1) {
            Some(e) => Some(e),
            None => {
                if fields[n - 1].kind@.len() == 0 {
                    Some(SchemaError::UnknownFieldShape { kind: k as usize, field: (n - 1) as usize })
                } else if is_reserved_name(fields[n - 1].name@) {
                    Some(SchemaError::ReservedFieldName { kind: k as usize, field: (n - 1) as usize })
                } else if exists|j: int| 0 <= j < n - 1 && #[trigger] fields[j].name@ == fields[n - 1].name@ {
                    Some(SchemaError::DuplicateFieldName { kind: k as usize, field: (n - 1) as usize })
                } else {
                    None
                }
            },
        }
    }
}

/// The fault of kind declaration `k`, given that the ones before it are sound.
pub open spec fn kind_error(kinds: Seq<Kind>, k: int) -> Option<SchemaError> {
    if kinds[k].name@.len() == 0 {
        Some(SchemaError::EmptyKindName { kind: k as usize })
    } else if exists|j: int| 0 <= j < k && #[trigger] kinds[j].name@ == kinds[k].name@ {
        Some(SchemaError::DuplicateKindName { kind: k as usize })
    } else if k > 0 && kinds[k].kind_id <= kinds[k - 1].kind_id {
        Some(SchemaError::NonMonotonicKindId { kind: k as usize })
    } else {
        field_error(k, kinds[k].fields@, kinds[k].fields@.len() as int)
    }
}

/// The first fault among the first `n` kind declarations.
pub open spec fn schema_error(kinds: Seq<Kind>, n: int) -> Option<SchemaError>
    decreases n,
{
    if n <= 0 {
        None
    } else {
        match schema_error(kinds, n - 1) {
            Some(e) => Some(e),
            None => kind_error(kinds, n - 1),
        }
    }
}

proof fn lemma_field_error_sticks(k: int, fields: Seq<Field>, m: int, n: int)
    requires
        0 <= m <= n,
        field_error(k, fields, m) is Some,
    ensures
        field_error(k, fields, n) == field_error(k, fields, m),
    decreases n - m,
{
    if n > m {
        lemma_field_error_sticks(k, fields, m, n - 1);
    }
}

proof fn lemma_schema_error_sticks(kinds: Seq<Kind>, m: int, n: int)
    requires
        0 <= m <= n,
        schema_error(kinds, m) is Some,
    ensures
        schema_error(kinds, n) == schema_error(kinds, m),
    decreases n - m,
{
    if n > m {
        lemma_schema_error_sticks(kinds, m, n - 1);
    }
}

proof fn lemma_field_error_not_reserved(k: int, fields: Seq<Field>, n: int, i: int)
    requires
        field_error(k, fields, n) is None,
        0 <= i < n,
    ensures
        !is_reserved_name(fields[i].name@),
    decreases n,
{
    if i < n - 1 {
        lemma_field_error_not_reserved(k, fields, n - 1, i);
    }
}

proof fn lemma_field_error_none(k: int, fields: Seq<Field>, n: int, i: int, j: int)
    requires
        field_error(k, fields, n) is None,
        0 <= i < j < n,
    ensures
        fields[i].name@ != fields[j].name@,
    decreases n,
{
    if j < n - 1 {
        lemma_field_error_none(k, fields, n - 1, i, j);
    }
}

proof fn lemma_schema_error_none(kinds: Seq<Kind>, n: int, k: int)
    requires
        schema_error(kinds, n) is None,
        0 <= k < n,
    ensures
        kind_error(kinds, k) is None,
    decreases n,
{
    if k < n - 1 {
        lemma_schema_error_none(kinds, n - 1, k);
    }
}

/// Checks the faults of field declaration `i` of kind `k`, all earlier ones
/// being sound.
fn check_field(k: usize, kind: &Kind, i: usize) -> (r: Option<SchemaError>)
    requires
        i < kind.fields@.len(),
        field_error(k as int, kind.fields@, i as int) is None,
    ensures
        r == field_error(k as int, kind.fields@, i + 1),
{
    if kind.fields[i].kind.as_str().unicode_len() == 0 {
        return Some(SchemaError::UnknownFieldShape { kind: k, field: i });
    }
    if reserved_name(kind.fields[i].name.as_str()) {
        return Some(SchemaError::ReservedFieldName { kind: k, field: i });
    }
    let mut j: usize = 0;
    while j < i
        invariant
            i < kind.fields@.len(),
            kind.fields@[i as int].kind@.len() != 0,
            !is_reserved_name(kind.fields@[i as int].name@),
            field_error(k as int, kind.fields@, i as int) is None,
            j <= i,
            forall|t: int| 0 <= t < j ==> kind.fields@[t].name@ != kind.fields@[i as int].name@,
        decreases i - j,
    {
        if str_eq(kind.fields[j].name.as_str(), kind.fields[i].name.as_str()) {
            assert(kind.fields@[j as int].name@ == kind.fields@[i as int].name@);
            return Some(SchemaError::DuplicateFieldName { kind: k, field: i });
        }
        j = j + 1;
    }
    None
}

/// Compiles kind declaration `k`, or finds its first fault.
fn compile_kind(kinds: &Vec<Kind>, k: usize) -> (r: Result<KindDesc, SchemaError>)
    requires
        k < kinds@.len(),
    ensures
        match r {
            Ok(d) => kind_error(kinds@, k as int) is None && kind_compiled(d, kinds@[k as int]),
            Err(e) => kind_error(kinds@, k as int) == Some(e),
        },
{
    let kind = &kinds[k];
    if kind.name.as_str().unicode_len() == 0 {
        return Err(SchemaError::EmptyKindName { kind: k });
    }
    let mut j: usize = 0;
    while j < k
        invariant
            k < kinds@.len(),
            kind == kinds@[k as int],
            kind.name@.len() != 0,
            j <= k,
            forall|t: int| 0 <= t < j ==> kinds@[t].name@ != kinds@[k as int].name@,
        decreases k - j,
    {
        if str_eq(kinds[j].name.as_str(), kind.name.as_str()) {
            assert(kinds@[j as int].name@ == kinds@[k as int].name@);
            return Err(SchemaError::DuplicateKindName { kind: k });
        }
        j = j + 1;
    }
    if k > 0 && kind.kind_id <= kinds[k - 1].kind_id {
        return Err(SchemaError::NonMonotonicKindId { kind: k });
    }
    let mut fields: Vec<FieldDesc> = Vec::new();
    let mut i: usize = 0;
    while i < kind.fields.len()
        invariant
            k < kinds@.len(),
            kind == kinds@[k as int],
            kind.name@.len() > 0,
            forall|t: int| 0 <= t < k ==> kinds@[t].name@ != kinds@[k as int].name@,
            k > 0 ==> kinds@[k - 1].kind_id < kind.kind_id,
            i <= kind.fields@.len(),
            field_error(k as int, kind.fields@, i as int) is None,
            fields@.len() == i,
            forall|t: int|
                0 <= t < i ==> #[trigger] field_compiled(fields@[t], kind.name@, kind.fields@[t]),
        decreases kind.fields@.len() - i,
    {
        match check_field(k, kind, i) {
            Some(e) => {
                proof {
                    lemma_field_error_sticks(
                        k as int,
                        kind.fields@,
                        i + 1,
                        kind.fields@.len() as int,
                    );
                }
                assert(!exists|t: int| 0 <= t < k && #[trigger] kinds@[t].name@ == kinds@[k as int].name@);
                return Err(e);
            },
            None => {},
        }
        let f = &kind.fields[i];
        let d = FieldDesc {
            name: f.name.clone(),
            shape: f.shape(),
            identity: !data_field(kind.name.as_str(), f.name.as_str()),
        };
        fields.push(d);
        i = i + 1;
    }
    Ok(KindDesc { name: kind.name.clone(), id: kind.kind_id, cid_prefix: kind.cid_prefix, fields })
}

/// Compiles a schema resource: every kind becomes a record description that
/// all codecs share. A malformed resource gives its first fault.
pub fn build_files(intermediate: &Intermediate) -> (r: Result<Schema, SchemaError>)
    ensures
        match schema_error(intermediate.kinds@, intermediate.kinds@.len() as int) {
            Some(e) => r == Err::<Schema, SchemaError>(e),
            None => r is Ok && schema_compiled(r->Ok_0, *intermediate) && r->Ok_0.wf(),
        },
{
    let kinds = &intermediate.kinds;
    let mut out: Vec<KindDesc> = Vec::new();
    let mut k: usize = 0;
    while k < kinds.len()
        invariant
            kinds == intermediate.kinds,
            k <= kinds@.len(),
            schema_error(kinds@, k as int) is None,
            out@.len() == k,
            forall|t: int| 0 <= t < k ==> #[trigger] kind_compiled(out@[t], kinds@[t]),
        decreases kinds@.len() - k,
    {
        match compile_kind(kinds, k) {
            Ok(d) => {
                out.push(d);
            },
            Err(e) => {
                proof {
                    lemma_schema_error_sticks(kinds@, k + 1, kinds@.len() as int);
                }
                return Err(e);
            },
        }
        k = k + 1;
    }
    let s = Schema { kinds: out };
    proof {
        let n = kinds@.len() as int;
        assert forall|i: int, j: int| 0 <= i < j < n implies s.kinds@[i].name@
            != s.kinds@[j].name@ by {
            lemma_schema_error_none(kinds@, n, j);
            assert(kind_compiled(s.kinds@[i], kinds@[i]));
            assert(kind_compiled(s.kinds@[j], kinds@[j]));
        }
        assert forall|i: int, j: int| 0 <= i < j < n implies s.kinds@[i].id < s.kinds@[j].id by {
            lemma_ids_increase(kinds@, n, i, j);
            assert(kind_compiled(s.kinds@[i], kinds@[i]));
            assert(kind_compiled(s.kinds@[j], kinds@[j]));
        }
        assert forall|t: int| 0 <= t < n implies #[trigger] s.kinds@[t].wf() by {
            lemma_schema_error_none(kinds@, n, t);
            let fs = kinds@[t].fields@;
            assert(kind_compiled(s.kinds@[t], kinds@[t]));
            assert forall|i: int, j: int| 0 <= i < j < s.kinds@[t].fields@.len() implies s.kinds@[
                t].fields@[i].name@ != s.kinds@[t].fields@[j].name@ by {
                lemma_field_error_none(t, fs, fs.len() as int, i, j);
                assert(field_compiled(s.kinds@[t].fields@[i], kinds@[t].name@, fs[i]));
                assert(field_compiled(s.kinds@[t].fields@[j], kinds@[t].name@, fs[j]));
            }
            assert forall|i: int| 0 <= i < s.kinds@[t].fields@.len() implies !is_reserved_name(#[trigger] s.kinds@[t].fields@[i].name@) by {
                lemma_field_error_not_reserved(t, fs, fs.len() as int, i);
                assert(field_compiled(s.kinds@[t].fields@[i], kinds@[t].name@, fs[i]));
            }
        }
    }
    Ok(s)
}

proof fn lemma_ids_increase(kinds: Seq<Kind>, n: int, i: int, j: int)
    requires
        schema_error(kinds, n) is None,
        0 <= i < j < n,
    ensures
        kinds[i].kind_id < kinds[j].kind_id,
    decreases j - i,
{
    lemma_schema_error_none(kinds, n, j);
    if i < j - 1 {
        lemma_ids_increase(kinds, n, i, j - 1);
    }
}

} // verus!
