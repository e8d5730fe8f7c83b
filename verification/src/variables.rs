//! The variables a selection set uses, in the order they appear.
use crate::ast::{Argument, ObjectField, Selection, SelectionSet, Value};
use vstd::prelude::*;

verus! {

/// The names of the variables in a value, depth first, left to right.
pub open spec fn value_variables<'a>(v: Value<'a>) -> Seq<&'a str>
    decreases v,
{
    match v {
        Value::Variable(x) => seq![x.name.value],
        Value::List(l) => values_variables(l.values@),
        Value::Object(o) => fields_variables(o.fields@),
        _ => Seq::empty(),
    }
}

/// The variables of a list of values, in order.
pub open spec fn values_variables<'a>(vs: Seq<Value<'a>>) -> Seq<&'a str>
    decreases vs,
{
    if vs.len() == 0 {
        Seq::empty()
    } else {
        values_variables(vs.subrange(0, vs.len() - 1)) + value_variables(vs[vs.len() - 1])
    }
}

/// The variables of the values of object fields, in order.
pub open spec fn fields_variables<'a>(fs: Seq<ObjectField<'a>>) -> Seq<&'a str>
    decreases fs,
{
    if fs.len() == 0 {
        Seq::empty()
    } else {
        fields_variables(fs.subrange(0, fs.len() - 1)) + match fs[fs.len() - 1].value {
            Some(v) => value_variables(v),
            None => Seq::empty(),
        }
    }
}

/// The variables of an optional value.
pub open spec fn opt_value_variables<'a>(v: Option<Value<'a>>) -> Seq<&'a str> {
    match v {
        Some(v) => value_variables(v),
        None => Seq::empty(),
    }
}

/// The variables of the values of arguments, in order.
pub open spec fn arguments_variables<'a>(args: Seq<Argument<'a>>) -> Seq<&'a str>
    decreases args.len(),
{
    if args.len() == 0 {
        Seq::empty()
    } else {
        arguments_variables(args.drop_last()) + opt_value_variables(args.last().value)
    }
}

/// The variables a selection set uses: those in the arguments of its fields,
/// each field's followed by those of its own selection set. Fragment spreads
/// and inline fragments are not entered.
pub open spec fn selection_set_variables<'a>(ss: SelectionSet<'a>) -> Seq<&'a str>
    decreases ss,
{
    selections_variables(ss.selections@)
}

/// The variables of a list of selections, in order.
pub open spec fn selections_variables<'a>(s: Seq<Selection<'a>>) -> Seq<&'a str>
    decreases s,
{
    if s.len() == 0 {
        Seq::empty()
    } else {
        selections_variables(s.subrange(0, s.len() - 1)) + selection_variables(s[s.len() - 1])
    }
}

/// The variables of one selection.
pub open spec fn selection_variables<'a>(s: Selection<'a>) -> Seq<&'a str>
    decreases s,
{
    match s {
        Selection::Field(f) => arguments_variables(f.arguments@) + match f.selection_set {
            Some(ss) => selection_set_variables(ss),
            None => Seq::empty(),
        },
        _ => Seq::empty(),
    }
}

/// Appends to `output` the names of the variables in `value`.
pub fn collect_variable_value<'a>(value: Option<&Value<'a>>, output: &mut Vec<&'a str>)
    ensures
        final(output)@ == old(output)@ + match value {
            Some(v) => value_variables(*v),
            None => Seq::empty(),
        },
{
    match value {
        Some(v) => collect_value_variables(v, output),
        None => {
            assert(output@ =~= output@ + Seq::<&'a str>::empty());
        },
    }
}

fn collect_value_variables<'a>(value: &Value<'a>, output: &mut Vec<&'a str>)
    ensures
        final(output)@ == old(output)@ + value_variables(*value),
    decreases value,
{
    match value {
        Value::Variable(variable) => {
            output.push(variable.name.as_str());
        },
        Value::List(list) => {
            let ghost start = output@;
            let mut i: usize = 0;
            while i < list.values.len()
                invariant
                    i <= list.values.len(),
                    *value == Value::List(*list),
                    output@ == start + values_variables(list.values@.subrange(0, i as int)),
                decreases list.values.len() - i,
            {
                proof {
                    assert(list.values@.subrange(0, i + 1).subrange(0, i as int)
                        =~= list.values@.subrange(0, i as int));
                    assert(decreases_to!(*value => (*value)->List_0));
                    assert(decreases_to!(*list => list.values));
                    assert(decreases_to!(list.values => list.values@));
                    assert(decreases_to!(list.values@ => list.values@[i as int]));
                }
                collect_value_variables(&list.values[i], output);
                proof {
                    assert(output@ =~= start + values_variables(
                        list.values@.subrange(0, i + 1),
                    ));
                }
                i = i + 1;
            }
            assert(list.values@.subrange(0, i as int) =~= list.values@);
        },
        Value::Object(object) => {
            let ghost start = output@;
            let mut i: usize = 0;
            while i < object.fields.len()
                invariant
                    i <= object.fields.len(),
                    *value == Value::Object(*object),
                    output@ == start + fields_variables(object.fields@.subrange(0, i as int)),
                decreases object.fields.len() - i,
            {
                proof {
                    assert(object.fields@.subrange(0, i + 1).subrange(0, i as int)
                        =~= object.fields@.subrange(0, i as int));
                }
                let field = &object.fields[i];
                match &field.value {
                    Some(v) => {
                        proof {
                            assert(decreases_to!(*value => (*value)->Object_0));
                            assert(decreases_to!(*object => object.fields));
                            assert(decreases_to!(object.fields => object.fields@));
                            assert(decreases_to!(object.fields@ => object.fields@[i as int]));
                            assert(decreases_to!(object.fields@[i as int] => *v));
                        }
                        collect_value_variables(v, output);
                    },
                    None => {},
                }
                proof {
                    assert(output@ =~= start + fields_variables(
                        object.fields@.subrange(0, i + 1),
                    ));
                }
                i = i + 1;
            }
            assert(object.fields@.subrange(0, i as int) =~= object.fields@);
        },
        _ => {
            assert(output@ =~= output@ + value_variables(*value));
        },
    }
}

/// Appends to `output` the names of the variables that `selection_set` uses
/// in the arguments of its fields, entering nested selection sets.
pub fn collect_variables<'a>(selection_set: &SelectionSet<'a>, output: &mut Vec<&'a str>)
    ensures
        final(output)@ == old(output)@ + selection_set_variables(*selection_set),
    decreases selection_set,
{
    let ghost start = output@;
    let mut i: usize = 0;
    while i < selection_set.selections.len()
        invariant
            i <= selection_set.selections.len(),
            output@ == start + selections_variables(
                selection_set.selections@.subrange(0, i as int),
            ),
        decreases selection_set.selections.len() - i,
    {
        proof {
            assert(selection_set.selections@.subrange(0, i + 1).subrange(0, i as int)
                =~= selection_set.selections@.subrange(0, i as int));
        }
        let ghost before = output@;
        let ghost sel = selection_set.selections@[i as int];
        assert(selection_set.selections@.subrange(0, i + 1)[i as int] == sel);
        if let Selection::Field(field) = &selection_set.selections[i] {
            let mut j: usize = 0;
            while j < field.arguments.len()
                invariant
                    j <= field.arguments.len(),
                    output@ == before + arguments_variables(field.arguments@.subrange(0, j as int)),
                decreases field.arguments.len() - j,
            {
                proof {
                    assert(field.arguments@.subrange(0, j + 1).drop_last()
                        =~= field.arguments@.subrange(0, j as int));
                }
                collect_variable_value(field.arguments[j].value.as_ref(), output);
                j = j + 1;
            }
            assert(field.arguments@.subrange(0, j as int) =~= field.arguments@);
            if let Some(inner) = &field.selection_set {
                proof {
                    assert(decreases_to!(selection_set => *inner));
                }
                collect_variables(inner, output);
            }
            assert(output@ =~= before + selection_variables(sel));
        } else {
            assert(output@ =~= before + selection_variables(sel));
        }
        proof {
            assert(output@ =~= start + selections_variables(
                selection_set.selections@.subrange(0, i + 1),
            ));
        }
        i = i + 1;
    }
    assert(selection_set.selections@.subrange(0, i as int) =~= selection_set.selections@);
}

} // verus!
