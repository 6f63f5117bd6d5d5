//! Accessors for class assertions and their negations.

use vstd::prelude::*;
use vstd::string::*;
use crate::entity::{Entity, EntityKind, EntityView, ValueView, FieldValue, fits, fits_shape, empty_value, value_views};
use crate::schema::{Schema, KindDesc};
use crate::text::str_eq;

verus! {

pub open spec fn class_assertion_name() -> Seq<char> {
    "ClassAssertion"@
}

pub open spec fn negative_class_assertion_name() -> Seq<char> {
    "NegativeClassAssertion"@
}

/// The kind names whose entities carry a subject: class assertions and
/// their negations.
pub open spec fn has_subject_kind(name: Seq<char>) -> bool {
    name == class_assertion_name() || name == negative_class_assertion_name()
}

/// The name of the kind that negates kind `name`.
pub open spec fn complement_name(name: Seq<char>) -> Seq<char> {
    if name == class_assertion_name() {
        negative_class_assertion_name()
    } else {
        class_assertion_name()
    }
}

/// The bytes a field holds as a single value.
pub open spec fn single_bytes(v: ValueView) -> Option<Seq<u8>> {
    match v {
        ValueView::Required(b) => Some(b),
        ValueView::Optional(o) => o,
        ValueView::Repeated(_) => None,
    }
}

/// The subject of an entity: the value of the `subject` field of a class
/// assertion or negative class assertion.
pub open spec fn subject_of(schema: Schema, e: EntityView) -> Option<Seq<u8>> {
    let kind = schema.kinds@[e.kind as int];
    if has_subject_kind(kind.name@) && exists|j: int| 0 <= j < kind.fields@.len() && #[trigger] kind.fields@[j].name@ == "subject"@ {
        let j = choose|j: int| 0 <= j < kind.fields@.len() && #[trigger] kind.fields@[j].name@ == "subject"@;
        single_bytes(e.values[j])
    } else {
        None
    }
}

fn find_field(kind: &KindDesc, name: &str) -> (r: Option<usize>)
    ensures
        match r {
            Some(j) => j < kind.fields@.len() && kind.fields@[j as int].name@ == name@,
            None => forall|j: int| 0 <= j < kind.fields@.len() ==> #[trigger] kind.fields@[j].name@ != name@,
        },
{
    let mut j: usize = 0;
    while j < kind.fields.len()
        invariant
            j <= kind.fields@.len(),
            forall|u: int| 0 <= u < j ==> #[trigger] kind.fields@[u].name@ != name@,
        decreases kind.fields@.len() - j,
    {
        if str_eq(kind.fields[j].name.as_str(), name) {
            return Some(j);
        }
        j = j + 1;
    }
    None
}

impl Entity {
    /// The subject of a class assertion or a negative class assertion; None
    /// for entities of other kinds, or when the subject is absent.
    pub fn get_subject(&self, schema: &Schema) -> (r: Option<Vec<u8>>)
        requires
            schema.wf(),
            fits(*schema, self@),
        ensures
            match subject_of(*schema, self@) {
                Some(b) => r matches Some(x) && x@ == b,
                None => r is None,
            },
    {
        let kind = &schema.kinds[self.kind];
        proof {
            reveal_strlit("ClassAssertion");
            reveal_strlit("NegativeClassAssertion");
            reveal_strlit("subject");
        }
        if !(str_eq(kind.name.as_str(), "ClassAssertion") || str_eq(kind.name.as_str(), "NegativeClassAssertion")) {
            return None;
        }
        match find_field(kind, "subject") {
            Some(j) => {
                proof {
                    assert(kind.wf());
                    let c = choose|c: int| 0 <= c < kind.fields@.len() && #[trigger] kind.fields@[c].name@ == "subject"@;
                    if c != j {
                        if c < j {
                            assert(kind.fields@[c].name@ != kind.fields@[j as int].name@);
                        } else {
                            assert(kind.fields@[j as int].name@ != kind.fields@[c].name@);
                        }
                    }
                    assert(self@.values[j as int] == self.values@[j as int]@);
                }
                match &self.values[j] {
                    FieldValue::Required(b) => Some(b.clone()),
                    FieldValue::Optional(o) => match o {
                        Some(b) => Some(b.clone()),
                        None => None,
                    },
                    FieldValue::Repeated(_) => None,
                }
            },
            None => None,
        }
    }

    /// This entity, where it is a class assertion.
    pub fn as_class_assertion(&self, schema: &Schema) -> (r: Option<&Entity>)
        requires
            fits(*schema, self@),
        ensures
            match r {
                Some(x) => *x == *self && schema.kinds@[self.kind as int].name@ == class_assertion_name(),
                None => schema.kinds@[self.kind as int].name@ != class_assertion_name(),
            },
    {
        proof {
            reveal_strlit("ClassAssertion");
        }
        if str_eq(schema.kinds[self.kind].name.as_str(), "ClassAssertion") {
            Some(self)
        } else {
            None
        }
    }

    /// This entity, where it is a negative class assertion.
    pub fn as_negative_class_assertion(&self, schema: &Schema) -> (r: Option<&Entity>)
        requires
            fits(*schema, self@),
        ensures
            match r {
                Some(x) => *x == *self && schema.kinds@[self.kind as int].name@ == negative_class_assertion_name(),
                None => schema.kinds@[self.kind as int].name@ != negative_class_assertion_name(),
            },
    {
        proof {
            reveal_strlit("NegativeClassAssertion");
        }
        if str_eq(schema.kinds[self.kind].name.as_str(), "NegativeClassAssertion") {
            Some(self)
        } else {
            None
        }
    }
}

/// Field `j` of the complement of `e`, of kind `target`: the same-named field
/// of `e` where it has the same shape, except the annotations, which start
/// empty; every other field is empty.
pub open spec fn complement_value(schema: Schema, e: EntityView, target: int, j: int) -> ValueView {
    let src = schema.kinds@[e.kind as int];
    let f = schema.kinds@[target].fields@[j];
    if f.name@ != "annotations"@ && exists|i: int| 0 <= i < src.fields@.len() && #[trigger] src.fields@[i].name@ == f.name@ && src.fields@[i].shape == f.shape {
        let i = choose|i: int| 0 <= i < src.fields@.len() && #[trigger] src.fields@[i].name@ == f.name@ && src.fields@[i].shape == f.shape;
        e.values[i]
    } else {
        empty_value(f.shape)
    }
}

impl Entity {
    /// The logical negation of a class assertion, or the class assertion a
    /// negative one negates: the same subject and class, no annotations.
    /// None for entities of other kinds, or where the schema lacks the other
    /// kind.
    pub fn get_assertion_complement(&self, schema: &Schema) -> (r: Option<Entity>)
        requires
            schema.wf(),
            fits(*schema, self@),
        ensures
            match r {
                Some(c) => has_subject_kind(schema.kinds@[self.kind as int].name@) && fits(*schema, c@)
                    && schema.kinds@[c.kind as int].name@ == complement_name(schema.kinds@[self.kind as int].name@)
                    && forall|j: int| 0 <= j < c@.values.len() ==> #[trigger] c@.values[j] == complement_value(*schema, self@, c.kind as int, j),
                None => !has_subject_kind(schema.kinds@[self.kind as int].name@) || forall|k: int|
                    0 <= k < schema.kinds@.len() ==> #[trigger] schema.kinds@[k].name@ != complement_name(schema.kinds@[self.kind as int].name@),
            },
    {
        let src = &schema.kinds[self.kind];
        proof {
            reveal_strlit("ClassAssertion");
            reveal_strlit("NegativeClassAssertion");
            reveal_strlit("annotations");
        }
        let target_name = if str_eq(src.name.as_str(), "ClassAssertion") {
            "NegativeClassAssertion"
        } else if str_eq(src.name.as_str(), "NegativeClassAssertion") {
            "ClassAssertion"
        } else {
            return None;
        };
        let target = match EntityKind::from_name(schema, target_name) {
            Ok(k) => k,
            Err(_) => {
                return None;
            },
        };
        let tk = &schema.kinds[target.index];
        let mut values: Vec<FieldValue> = Vec::new();
        let mut j: usize = 0;
        while j < tk.fields.len()
            invariant
                schema.wf(),
                fits(*schema, self@),
                target.index < schema.kinds@.len(),
                tk == schema.kinds@[target.index as int],
                src == schema.kinds@[self.kind as int],
                j <= tk.fields@.len(),
                values@.len() == j,
                forall|u: int| 0 <= u < j ==> #[trigger] value_views(values@)[u] == complement_value(*schema, self@, target.index as int, u),
                forall|u: int| 0 <= u < j ==> #[trigger] fits_shape(value_views(values@)[u], tk.fields@[u].shape),
            decreases tk.fields@.len() - j,
        {
            let f = &tk.fields[j];
            let mut v = FieldValue::empty(f.shape);
            if !str_eq(f.name.as_str(), "annotations") {
                match find_field(src, f.name.as_str()) {
                    Some(i) => {
                        if src.fields[i].shape == f.shape {
                            v = self.values[i].copy();
                            proof {
                                assert(src.wf());
                                let c = choose|c: int| 0 <= c < src.fields@.len() && #[trigger] src.fields@[c].name@ == f.name@ && src.fields@[c].shape == f.shape;
                                if c != i {
                                    if c < i {
                                        assert(src.fields@[c].name@ != src.fields@[i as int].name@);
                                    } else {
                                        assert(src.fields@[i as int].name@ != src.fields@[c].name@);
                                    }
                                }
                                assert(fits_shape(self@.values[i as int], src.fields@[i as int].shape));
                            }
                        } else {
                            proof {
                                assert(src.wf());
                                assert forall|c: int| 0 <= c < src.fields@.len() && #[trigger] src.fields@[c].name@ == f.name@ implies src.fields@[c].shape != f.shape by {
                                    if c != i {
                                        if c < i {
                                            assert(src.fields@[c].name@ != src.fields@[i as int].name@);
                                        } else {
                                            assert(src.fields@[i as int].name@ != src.fields@[c].name@);
                                        }
                                    }
                                }
                            }
                        }
                    },
                    None => {},
                }
            }
            let ghost before = values@;
            let ghost vv = v@;
            values.push(v);
            assert(value_views(values@) =~= value_views(before).push(vv));
            j = j + 1;
        }
        let c = Entity { kind: target.index, values };
        proof {
            assert("NegativeClassAssertion"@ =~= negative_class_assertion_name());
            assert("ClassAssertion"@ =~= class_assertion_name());
        }
        Some(c)
    }
}

} // verus!
