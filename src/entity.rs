//! Entities: instances of the schema's kinds, their kind descriptors, and
//! canonicalization.

use vstd::prelude::*;
use vstd::string::*;
use crate::order::{lists, sort_bytes, sorted_bytes};
use crate::schema::{Schema, Shape, KindDesc};
use crate::text::str_eq;

verus! {

/// The content of one field of an entity.
#[derive(Clone, Debug, PartialEq, Eq)]
pub enum FieldValue {
    Required(Vec<u8>),
    Optional(Option<Vec<u8>>),
    Repeated(Vec<Vec<u8>>),
}

/// The mathematical content of a field.
pub enum ValueView {
    Required(Seq<u8>),
    Optional(Option<Seq<u8>>),
    Repeated(Seq<Seq<u8>>),
}

pub open spec fn opt_view(o: Option<Vec<u8>>) -> Option<Seq<u8>> {
    match o {
        Some(b) => Some(b@),
        None => None,
    }
}

impl View for FieldValue {
    type V = ValueView;

    open spec fn view(&self) -> ValueView {
        match self {
            FieldValue::Required(b) => ValueView::Required(b@),
            FieldValue::Optional(o) => ValueView::Optional(opt_view(*o)),
            FieldValue::Repeated(v) => ValueView::Repeated(lists(v@)),
        }
    }
}

/// Whether a field content has the form its shape asks for.
pub open spec fn fits_shape(v: ValueView, s: Shape) -> bool {
    match v {
        ValueView::Required(_) => s == Shape::Required,
        ValueView::Optional(_) => s == Shape::Optional,
        ValueView::Repeated(_) => s == Shape::Repeated,
    }
}

/// The empty content of a field of the given shape.
pub open spec fn empty_value(s: Shape) -> ValueView {
    match s {
        Shape::Required => ValueView::Required(Seq::empty()),
        Shape::Optional => ValueView::Optional(None),
        Shape::Repeated => ValueView::Repeated(Seq::empty()),
    }
}

/// Copies a list of byte strings.
pub fn copy_lists(v: &Vec<Vec<u8>>) -> (r: Vec<Vec<u8>>)
    ensures
        lists(r@) == lists(v@),
{
    let mut out: Vec<Vec<u8>> = Vec::new();
    let mut i: usize = 0;
    while i < v.len()
        invariant
            i <= v@.len(),
            lists(out@) == lists(v@).subrange(0, i as int),
        decreases v@.len() - i,
    {
        let x = v[i].clone();
        assert(x@ =~= v@[i as int]@);
        let ghost before = out@;
        out.push(x);
        assert(lists(out@) =~= lists(before).push(x@));
        assert(lists(v@).subrange(0, i + 1) =~= lists(v@).subrange(0, i as int).push(x@));
        i = i + 1;
    }
    assert(lists(v@).subrange(0, v@.len() as int) =~= lists(v@));
    out
}

impl FieldValue {
    pub fn copy(&self) -> (r: FieldValue)
        ensures
            r@ == self@,
    {
        match self {
            FieldValue::Required(b) => FieldValue::Required(b.clone()),
            FieldValue::Optional(o) => match o {
                Some(b) => FieldValue::Optional(Some(b.clone())),
                None => FieldValue::Optional(None),
            },
            FieldValue::Repeated(v) => FieldValue::Repeated(copy_lists(v)),
        }
    }

    pub fn empty(shape: Shape) -> (r: FieldValue)
        ensures
            r@ == empty_value(shape),
    {
        match shape {
            Shape::Required => FieldValue::Required(Vec::new()),
            Shape::Optional => FieldValue::Optional(None),
            Shape::Repeated => {
                let v: Vec<Vec<u8>> = Vec::new();
                proof {
                    assert(lists(v@) =~= Seq::<Seq<u8>>::empty());
                }
                FieldValue::Repeated(v)
            },
        }
    }
}

/// An instance of one kind of the schema: the kind's position and one
/// content per field, in field order.
#[derive(Clone, Debug, PartialEq, Eq)]
pub struct Entity {
    pub kind: usize,
    pub values: Vec<FieldValue>,
}

/// The mathematical content of an entity.
pub struct EntityView {
    pub kind: nat,
    pub values: Seq<ValueView>,
}

pub open spec fn value_views(v: Seq<FieldValue>) -> Seq<ValueView> {
    v.map_values(|f: FieldValue| f@)
}

impl View for Entity {
    type V = EntityView;

    open spec fn view(&self) -> EntityView {
        EntityView { kind: self.kind as nat, values: value_views(self.values@) }
    }
}

/// Whether an entity view is an instance of a kind of the schema.
pub open spec fn fits(schema: Schema, e: EntityView) -> bool {
    &&& e.kind < schema.kinds@.len()
    &&& e.values.len() == schema.kinds@[e.kind as int].fields@.len()
    &&& forall|i: int|
        0 <= i < e.values.len() ==> #[trigger] fits_shape(
            e.values[i],
            schema.kinds@[e.kind as int].fields@[i].shape,
        )
}

/// The empty instance of kind `k`.
pub open spec fn empty_entity_view(schema: Schema, k: int) -> EntityView {
    EntityView {
        kind: k as nat,
        values: schema.kinds@[k].fields@.map_values(|f: crate::schema::FieldDesc| empty_value(f.shape)),
    }
}

/// A field content with the list of a repeated field sorted.
pub open spec fn canonical_value(v: ValueView) -> ValueView {
    match v {
        ValueView::Repeated(l) => ValueView::Repeated(sorted_bytes(l)),
        _ => v,
    }
}

/// An entity with every repeated field sorted.
pub open spec fn canonical(e: EntityView) -> EntityView {
    EntityView { kind: e.kind, values: e.values.map_values(|v: ValueView| canonical_value(v)) }
}

/// A kind of the schema, without any data: its position in the schema.
#[derive(Clone, Copy, Debug, PartialEq, Eq, Structural)]
pub struct EntityKind {
    pub index: usize,
}

/// No kind of the schema has the name asked for.
#[derive(Clone, Copy, Debug, PartialEq, Eq, Structural)]
pub struct NotFound;

/// `s` without the suffix `Stored`, where it has it.
pub open spec fn strip_stored(s: Seq<char>) -> Seq<char> {
    if s.len() >= 6 && s.subrange(s.len() - 6, s.len() as int) == "Stored"@ {
        s.subrange(0, s.len() - 6)
    } else {
        s
    }
}

impl Entity {
    pub fn copy(&self) -> (r: Entity)
        ensures
            r@ == self@,
    {
        let mut values: Vec<FieldValue> = Vec::new();
        let mut i: usize = 0;
        while i < self.values.len()
            invariant
                i <= self.values@.len(),
                value_views(values@) == value_views(self.values@).subrange(0, i as int),
            decreases self.values@.len() - i,
        {
            let x = self.values[i].copy();
            let ghost before = values@;
            values.push(x);
            assert(value_views(values@) =~= value_views(before).push(x@));
            assert(value_views(self.values@).subrange(0, i + 1) =~= value_views(self.values@).subrange(0, i as int).push(x@));
            i = i + 1;
        }
        assert(value_views(self.values@).subrange(0, self.values@.len() as int) =~= value_views(
            self.values@,
        ));
        Entity { kind: self.kind, values }
    }

    /// The kind this entity is an instance of.
    pub fn kind(&self) -> (r: EntityKind)
        ensures
            r.index == self.kind,
    {
        EntityKind { index: self.kind }
    }

    /// Sorts every repeated field, so that entities equal up to the order
    /// within repeated fields become equal.
    pub fn canonicalize(&mut self)
        ensures
            final(self)@ == canonical(old(self)@),
    {
        let ghost start = self@;
        let n = self.values.len();
        let mut i: usize = 0;
        while i < n
            invariant
                n == self.values@.len(),
                n == start.values.len(),
                i <= n,
                self.kind == start.kind,
                forall|t: int| 0 <= t < i ==> #[trigger] self.values@[t]@ == canonical_value(start.values[t]),
                forall|t: int| i <= t < n ==> #[trigger] self.values@[t]@ == start.values[t],
            decreases n - i,
        {
            let sorted = match &self.values[i] {
                FieldValue::Repeated(l) => Some(sort_bytes(copy_lists(l))),
                _ => None,
            };
            assert(self.values@[i as int]@ == start.values[i as int]);
            match sorted {
                Some(l) => {
                    self.values.set(i, FieldValue::Repeated(l));
                },
                None => {},
            }
            assert(self.values@[i as int]@ == canonical_value(start.values[i as int]));
            i = i + 1;
        }
        assert(self@.values =~= canonical(start).values);
    }
}

impl EntityKind {
    pub open spec fn valid(&self, schema: Schema) -> bool {
        self.index < schema.kinds@.len()
    }

    /// The kind of the given name.
    pub fn from_name(schema: &Schema, name: &str) -> (r: Result<EntityKind, NotFound>)
        ensures
            match r {
                Ok(k) => k.valid(*schema) && schema.kinds@[k.index as int].name@ == name@ && forall|
                    j: int,
                | 0 <= j < k.index ==> schema.kinds@[j].name@ != name@,
                Err(_) => forall|j: int|
                    0 <= j < schema.kinds@.len() ==> schema.kinds@[j].name@ != name@,
            },
    {
        let mut i: usize = 0;
        while i < schema.kinds.len()
            invariant
                i <= schema.kinds@.len(),
                forall|j: int| 0 <= j < i ==> schema.kinds@[j].name@ != name@,
            decreases schema.kinds@.len() - i,
        {
            if str_eq(schema.kinds[i].name.as_str(), name) {
                return Ok(EntityKind { index: i });
            }
            i = i + 1;
        }
        Err(NotFound)
    }

    /// The kind whose change events carry the given name: the kind's name,
    /// followed by `Stored`.
    pub fn from_event_name(schema: &Schema, event_name: &str) -> (r: Result<EntityKind, NotFound>)
        ensures
            match r {
                Ok(k) => k.valid(*schema) && schema.kinds@[k.index as int].name@ == strip_stored(
                    event_name@,
                ) && forall|j: int|
                    0 <= j < k.index ==> schema.kinds@[j].name@ != strip_stored(event_name@),
                Err(_) => forall|j: int|
                    0 <= j < schema.kinds@.len() ==> schema.kinds@[j].name@ != strip_stored(
                        event_name@,
                    ),
            },
    {
        let n = event_name.unicode_len();
        let stored = "Stored";
        proof {
            reveal_strlit("Stored");
        }
        if n >= 6 && str_eq(event_name.substring_char(n - 6, n), stored) {
            let name = event_name.substring_char(0, n - 6);
            Self::from_name(schema, name)
        } else {
            Self::from_name(schema, event_name)
        }
    }

    /// The kind's name.
    pub fn name(&self, schema: &Schema) -> (r: String)
        requires
            self.valid(*schema),
        ensures
            r@ == schema.kinds@[self.index as int].name@,
    {
        schema.kinds[self.index].name.clone()
    }

    /// The kind's numeric id.
    pub fn id(&self, schema: &Schema) -> (r: u64)
        requires
            self.valid(*schema),
        ensures
            r == schema.kinds@[self.index as int].id,
    {
        schema.kinds[self.index].id
    }

    /// The codec prefix of the kind's CIDs.
    pub fn cid_prefix(&self, schema: &Schema) -> (r: u64)
        requires
            self.valid(*schema),
        ensures
            r == schema.kinds@[self.index as int].cid_prefix,
    {
        schema.kinds[self.index].cid_prefix
    }

    /// The name of the function that retrieves an entity of this kind.
    pub fn retrieve_fn_name(&self, schema: &Schema) -> (r: String)
        requires
            self.valid(*schema),
        ensures
            r@ == "retrieve"@ + schema.kinds@[self.index as int].name@,
    {
        let mut s = String::from_str("retrieve");
        s.append(schema.kinds[self.index].name.as_str());
        s
    }

    /// The instance of this kind whose fields are all empty.
    pub fn empty_entity(&self, schema: &Schema) -> (r: Entity)
        requires
            self.valid(*schema),
        ensures
            r@ == empty_entity_view(*schema, self.index as int),
            fits(*schema, r@),
    {
        let kind = &schema.kinds[self.index];
        let mut values: Vec<FieldValue> = Vec::new();
        let mut i: usize = 0;
        while i < kind.fields.len()
            invariant
                self.index < schema.kinds@.len(),
                kind == schema.kinds@[self.index as int],
                i <= kind.fields@.len(),
                value_views(values@) == kind.fields@.subrange(0, i as int).map_values(
                    |f: crate::schema::FieldDesc| empty_value(f.shape),
                ),
            decreases kind.fields@.len() - i,
        {
            let x = FieldValue::empty(kind.fields[i].shape);
            let ghost before = values@;
            values.push(x);
            assert(value_views(values@) =~= value_views(before).push(x@));
            assert(kind.fields@.subrange(0, i + 1).map_values(
                |f: crate::schema::FieldDesc| empty_value(f.shape),
            ) =~= kind.fields@.subrange(0, i as int).map_values(
                |f: crate::schema::FieldDesc| empty_value(f.shape),
            ).push(x@));
            i = i + 1;
        }
        assert(kind.fields@.subrange(0, kind.fields@.len() as int) =~= kind.fields@);
        let r = Entity { kind: self.index, values };
        assert(forall|t: int|
            0 <= t < r@.values.len() ==> #[trigger] fits_shape(
                r@.values[t],
                kind.fields@[t].shape,
            ));
        r
    }

    /// The names of all kinds of the schema, in order.
    pub fn variants(schema: &Schema) -> (r: Vec<String>)
        ensures
            r@.map_values(|s: String| s@) == schema.names(),
    {
        let mut out: Vec<String> = Vec::new();
        let mut i: usize = 0;
        while i < schema.kinds.len()
            invariant
                i <= schema.kinds@.len(),
                out@.map_values(|s: String| s@) == schema.names().subrange(0, i as int),
            decreases schema.kinds@.len() - i,
        {
            let x = schema.kinds[i].name.clone();
            let ghost before = out@;
            out.push(x);
            assert(out@.map_values(|s: String| s@) =~= before.map_values(|s: String| s@).push(x@));
            assert(schema.names().subrange(0, i + 1) =~= schema.names().subrange(0, i as int).push(x@));
            i = i + 1;
        }
        assert(schema.names().subrange(0, schema.kinds@.len() as int) =~= schema.names());
        out
    }

    /// The names of the fields that bear the identity of an entity of this
    /// kind, in field order.
    pub fn cid_field_names(&self, schema: &Schema) -> (r: Vec<String>)
        requires
            self.valid(*schema),
        ensures
            r@.map_values(|s: String| s@) == field_names_where(
                schema.kinds@[self.index as int],
                true,
            ),
    {
        names_where(&schema.kinds[self.index], true)
    }

    /// The names of the literal-payload fields of this kind, in field order.
    pub fn data_field_names(&self, schema: &Schema) -> (r: Vec<String>)
        requires
            self.valid(*schema),
        ensures
            r@.map_values(|s: String| s@) == field_names_where(
                schema.kinds@[self.index as int],
                false,
            ),
    {
        names_where(&schema.kinds[self.index], false)
    }
}

/// The names of the fields of `kind` whose identity flag is `identity`.
pub open spec fn field_names_where(kind: KindDesc, identity: bool) -> Seq<Seq<char>> {
    kind.fields@.filter(|f: crate::schema::FieldDesc| f.identity == identity).map_values(
        |f: crate::schema::FieldDesc| f.name@,
    )
}

fn names_where(kind: &KindDesc, identity: bool) -> (r: Vec<String>)
    ensures
        r@.map_values(|s: String| s@) == field_names_where(*kind, identity),
{
    let mut out: Vec<String> = Vec::new();
    let mut i: usize = 0;
    let ghost pred = |f: crate::schema::FieldDesc| f.identity == identity;
    while i < kind.fields.len()
        invariant
            i <= kind.fields@.len(),
            pred == (|f: crate::schema::FieldDesc| f.identity == identity),
            out@.map_values(|s: String| s@) == kind.fields@.subrange(0, i as int).filter(
                pred,
            ).map_values(|f: crate::schema::FieldDesc| f.name@),
        decreases kind.fields@.len() - i,
    {
        proof {
            kind.fields@.subrange(0, i as int).lemma_filter_push(kind.fields@[i as int], pred);
            assert(kind.fields@.subrange(0, i + 1) =~= kind.fields@.subrange(0, i as int).push(
                kind.fields@[i as int],
            ));
        }
        let ghost before = out@;
        if kind.fields[i].identity == identity {
            let x = kind.fields[i].name.clone();
            out.push(x);
            assert(out@.map_values(|s: String| s@) =~= before.map_values(|s: String| s@).push(x@));
        }
        assert(out@.map_values(|s: String| s@) =~= kind.fields@.subrange(0, i + 1).filter(
            pred,
        ).map_values(|f: crate::schema::FieldDesc| f.name@));
        i = i + 1;
    }
    assert(kind.fields@.subrange(0, kind.fields@.len() as int) =~= kind.fields@);
    out
}

/// The byte strings a field holds, in order: one for a required field, zero
/// or one for an optional field, every element of a repeated field.
pub open spec fn value_bytes(v: ValueView) -> Seq<Seq<u8>> {
    match v {
        ValueView::Required(b) => seq![b],
        ValueView::Optional(Some(b)) => seq![b],
        ValueView::Optional(None) => Seq::empty(),
        ValueView::Repeated(l) => l,
    }
}

/// The byte strings held by the first `n` fields whose identity flag is
/// `identity`, in field order.
pub open spec fn field_values_where(kind: KindDesc, vals: Seq<ValueView>, identity: bool, n: nat) -> Seq<Seq<u8>>
    decreases n,
{
    if n == 0 {
        Seq::empty()
    } else {
        field_values_where(kind, vals, identity, (n - 1) as nat) + if kind.fields@[n - 1].identity == identity {
            value_bytes(vals[n - 1])
        } else {
            Seq::empty()
        }
    }
}

fn values_where(e: &Entity, kind: &KindDesc, identity: bool) -> (r: Vec<Vec<u8>>)
    requires
        e.values@.len() == kind.fields@.len(),
    ensures
        lists(r@) == field_values_where(*kind, e@.values, identity, kind.fields@.len()),
{
    let mut out: Vec<Vec<u8>> = Vec::new();
    let mut i: usize = 0;
    assert(lists(out@) =~= Seq::<Seq<u8>>::empty());
    while i < kind.fields.len()
        invariant
            e.values@.len() == kind.fields@.len(),
            i <= kind.fields@.len(),
            lists(out@) == field_values_where(*kind, e@.values, identity, i as nat),
        decreases kind.fields@.len() - i,
    {
        let ghost before = lists(out@);
        assert(e@.values[i as int] == e.values@[i as int]@);
        if kind.fields[i].identity == identity {
            match &e.values[i] {
                FieldValue::Required(b) => {
                    out.push(b.clone());
                    assert(lists(out@) =~= before + seq![b@]);
                },
                FieldValue::Optional(o) => match o {
                    Some(b) => {
                        out.push(b.clone());
                        assert(lists(out@) =~= before + seq![b@]);
                    },
                    None => {
                        assert(lists(out@) =~= before + Seq::<Seq<u8>>::empty());
                    },
                },
                FieldValue::Repeated(l) => {
                    let mut j: usize = 0;
                    assert(lists(out@) =~= before + lists(l@).subrange(0, 0));
                    while j < l.len()
                        invariant
                            j <= l@.len(),
                            lists(out@) == before + lists(l@).subrange(0, j as int),
                        decreases l@.len() - j,
                    {
                        let ghost mid = lists(out@);
                        out.push(l[j].clone());
                        assert(lists(out@) =~= mid.push(l@[j as int]@));
                        assert(lists(l@).subrange(0, j + 1) =~= lists(l@).subrange(0, j as int).push(l@[j as int]@));
                        j = j + 1;
                    }
                    assert(lists(l@).subrange(0, l@.len() as int) =~= lists(l@));
                },
            }
        } else {
            assert(lists(out@) =~= before + Seq::<Seq<u8>>::empty());
        }
        i = i + 1;
    }
    out
}

impl Entity {
    /// The byte strings held by the fields that bear the entity's identity,
    /// in field order.
    pub fn cid_field_values(&self, schema: &Schema) -> (r: Vec<Vec<u8>>)
        requires
            fits(*schema, self@),
        ensures
            lists(r@) == field_values_where(schema.kinds@[self.kind as int], self@.values, true, schema.kinds@[self.kind as int].fields@.len()),
    {
        values_where(self, &schema.kinds[self.kind], true)
    }

    /// The byte strings held by the literal-payload fields, in field order.
    pub fn data_field_values(&self, schema: &Schema) -> (r: Vec<Vec<u8>>)
        requires
            fits(*schema, self@),
        ensures
            lists(r@) == field_values_where(schema.kinds@[self.kind as int], self@.values, false, schema.kinds@[self.kind as int].fields@.len()),
    {
        values_where(self, &schema.kinds[self.kind], false)
    }
}

} // verus!
