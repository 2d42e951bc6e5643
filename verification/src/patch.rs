//! The platform patch pass: OS-specific structural fixes applied before
//! the policy passes, and only when split tunneling is enabled. On macOS
//! every tunnel inbound loses its explicit interface-name override; on
//! Windows every tunnel inbound is forced onto the system network stack
//! and `route.auto_detect_interface` is filled in when absent; elsewhere
//! nothing changes. Missing or malformed parts are simply left alone.

use vstd::prelude::*;
use vstd::string::StringExecFns;
use crate::policy::Platform;
use crate::rules::is_tun_inbound;
use crate::rules::is_tun_inbound_exec;
use crate::value::field_get;
use crate::value::field_set;
use crate::value::lemma_field_get_absent;
use crate::value::lemma_field_get_found;
use crate::value::lemma_field_set_found;
use crate::value::lemma_model_of_fields;
use crate::value::lemma_model_of_seq;
use crate::value::model_of;
use crate::value::model_of_fields;
use crate::value::model_of_seq;
use crate::value::obj_get_index;
use crate::value::obj_set_value;
use crate::value::value_get_model;
use crate::value::value_remove;
use crate::value::value_remove_model;
use crate::value::value_set;
use crate::value::value_set_model;
use crate::value::Value;
use crate::value::ValueModel;

verus! {

/// A tunnel inbound without its interface-name override.
pub open spec fn patch_inbound_mac(m: ValueModel) -> ValueModel {
    if is_tun_inbound(m) {
        value_remove_model(m, "interface_name"@)
    } else {
        m
    }
}

/// A tunnel inbound forced onto the system network stack.
pub open spec fn patch_inbound_win(m: ValueModel) -> ValueModel {
    if is_tun_inbound(m) {
        value_set_model(m, "stack"@, ValueModel::Str("system"@))
    } else {
        m
    }
}

/// The chosen inbound patch, applied elementwise.
pub open spec fn patch_inbound(m: ValueModel, win: bool) -> ValueModel {
    if win {
        patch_inbound_win(m)
    } else {
        patch_inbound_mac(m)
    }
}

/// The document with every inbound patched, when it has an inbound list.
pub open spec fn map_inbounds_model(doc: ValueModel, win: bool) -> ValueModel {
    match value_get_model(doc, "inbounds"@) {
        Some(ValueModel::Arr(items)) => value_set_model(
            doc,
            "inbounds"@,
            ValueModel::Arr(items.map_values(|m: ValueModel| patch_inbound(m, win))),
        ),
        _ => doc,
    }
}

/// `route.auto_detect_interface` filled in as `true` when the route
/// object exists and the key is absent.
pub open spec fn ensure_auto_detect_model(doc: ValueModel) -> ValueModel {
    match value_get_model(doc, "route"@) {
        Some(ValueModel::Obj(rf)) => if field_get(rf, "auto_detect_interface"@) is Some {
            doc
        } else {
            value_set_model(
                doc,
                "route"@,
                ValueModel::Obj(
                    field_set(rf, "auto_detect_interface"@, ValueModel::Bool(true)),
                ),
            )
        },
        _ => doc,
    }
}

/// The whole platform patch pass.
pub open spec fn platform_patch_model(
    doc: ValueModel,
    enabled: bool,
    platform: Platform,
) -> ValueModel {
    if !enabled {
        doc
    } else {
        match platform {
            Platform::MacOs => map_inbounds_model(doc, false),
            Platform::Windows => ensure_auto_detect_model(map_inbounds_model(doc, true)),
            Platform::Linux => doc,
        }
    }
}

/// Patches one inbound.
fn patch_one_inbound(item: Value, win: bool) -> (r: Value)
    ensures
        r@ == patch_inbound(item@, win),
{
    if is_tun_inbound_exec(&item) {
        if win {
            value_set(item, "stack", Value::Str(String::from_str("system")))
        } else {
            value_remove(item, "interface_name")
        }
    } else {
        item
    }
}

/// Patches every inbound in the list.
fn patch_items(items: Vec<Value>, win: bool) -> (r: Vec<Value>)
    ensures
        model_of_seq(r@) == model_of_seq(items@).map_values(
            |m: ValueModel| patch_inbound(m, win),
        ),
{
    let ghost orig = items@;
    let ghost morig = model_of_seq(items@);
    proof {
        lemma_model_of_seq(orig);
    }
    let mut rest = items;
    let mut out: Vec<Value> = Vec::new();
    proof {
        assert(rest@ =~= orig.subrange(orig.len() - rest@.len(), orig.len() as int));
    }
    while rest.len() > 0
        invariant
            rest@.len() <= orig.len(),
            morig == model_of_seq(orig),
            morig.len() == orig.len(),
            forall|j: int| 0 <= j < orig.len() ==> #[trigger] morig[j] == model_of(orig[j]),
            rest@ =~= orig.subrange(orig.len() - rest@.len(), orig.len() as int),
            out@.len() == orig.len() - rest@.len(),
            forall|j: int|
                0 <= j < out@.len() ==> model_of(#[trigger] out@[j]) == patch_inbound(
                    morig[j],
                    win,
                ),
        decreases rest@.len(),
    {
        let ghost pre = rest@;
        let ghost done: int = orig.len() - pre.len();
        let item = rest.remove(0);
        proof {
            assert(item == orig[done]);
            assert(rest@ =~= orig.subrange(done + 1, orig.len() as int));
        }
        let patched = patch_one_inbound(item, win);
        out.push(patched);
    }
    let ghost ov = out@;
    proof {
        lemma_model_of_seq(ov);
        assert(model_of_seq(ov) =~= morig.map_values(|m: ValueModel| patch_inbound(m, win)));
    }
    out
}

/// Applies the chosen inbound patch to the document's inbound list.
fn map_inbounds(doc: Value, win: bool) -> (r: Value)
    ensures
        r@ == map_inbounds_model(doc@, win),
{
    let ghost dm = doc@;
    match doc {
        Value::Obj(dfields) => {
            let ghost forig = dfields@;
            let mut dfields = dfields;
            match obj_get_index(&dfields, "inbounds") {
                Some(i) => {
                    let pair = dfields.remove(i);
                    let ghost k0 = pair.0@;
                    match pair.1 {
                        Value::Arr(items) => {
                            let ghost im = model_of_seq(items@);
                            let new_items = patch_items(items, win);
                            dfields.insert(i, (pair.0, Value::Arr(new_items)));
                            proof {
                                lemma_model_of_fields(forig);
                                lemma_model_of_fields(dfields@);
                                assert(dfields@ =~= forig.update(
                                    i as int,
                                    (forig[i as int].0, Value::Arr(new_items)),
                                ));
                                assert(forall|j: int|
                                    0 <= j < i ==> (#[trigger] model_of_fields(forig)[j]).0
                                        != "inbounds"@);
                                lemma_field_get_found(
                                    model_of_fields(forig),
                                    "inbounds"@,
                                    i as int,
                                );
                                assert(value_get_model(dm, "inbounds"@) == Some(
                                    ValueModel::Arr(im),
                                ));
                                lemma_field_set_found(
                                    model_of_fields(forig),
                                    "inbounds"@,
                                    ValueModel::Arr(
                                        im.map_values(
                                            |m: ValueModel| patch_inbound(m, win),
                                        ),
                                    ),
                                    i as int,
                                );
                                assert(model_of_fields(dfields@) =~= field_set(
                                    model_of_fields(forig),
                                    "inbounds"@,
                                    ValueModel::Arr(
                                        im.map_values(
                                            |m: ValueModel| patch_inbound(m, win),
                                        ),
                                    ),
                                ));
                            }
                            Value::Obj(dfields)
                        },
                        other => {
                            dfields.insert(i, (pair.0, other));
                            proof {
                                assert(dfields@ =~= forig);
                                lemma_model_of_fields(forig);
                                assert(forall|j: int|
                                    0 <= j < i ==> (#[trigger] model_of_fields(forig)[j]).0
                                        != "inbounds"@);
                                lemma_field_get_found(
                                    model_of_fields(forig),
                                    "inbounds"@,
                                    i as int,
                                );
                                assert(!(model_of(other) is Arr));
                            }
                            Value::Obj(dfields)
                        },
                    }
                },
                None => {
                    proof {
                        lemma_model_of_fields(dfields@);
                        assert(forall|j: int|
                            0 <= j < dfields@.len() ==> (#[trigger] model_of_fields(
                                dfields@,
                            )[j]).0 != "inbounds"@);
                        lemma_field_get_absent(model_of_fields(dfields@), "inbounds"@);
                    }
                    Value::Obj(dfields)
                },
            }
        },
        other => other,
    }
}

/// Fills in `route.auto_detect_interface = true` when the route object
/// exists and the key is absent, so the tunnel cannot capture its own
/// upstream traffic.
fn ensure_auto_detect(doc: Value) -> (r: Value)
    ensures
        r@ == ensure_auto_detect_model(doc@),
{
    let ghost dm = doc@;
    match doc {
        Value::Obj(dfields) => {
            let ghost forig = dfields@;
            let mut dfields = dfields;
            match obj_get_index(&dfields, "route") {
                Some(i) => {
                    proof {
                        lemma_model_of_fields(forig);
                        assert(forall|j: int|
                            0 <= j < i ==> (#[trigger] model_of_fields(forig)[j]).0
                                != "route"@);
                        lemma_field_get_found(model_of_fields(forig), "route"@, i as int);
                    }
                    let pair = dfields.remove(i);
                    match pair.1 {
                        Value::Obj(rf) => {
                            let ghost rm = model_of_fields(rf@);
                            match obj_get_index(&rf, "auto_detect_interface") {
                                Some(_) => {
                                    proof {
                                        lemma_model_of_fields(rf@);
                                        let k = choose|k: int|
                                            0 <= k < rf@.len() && rf@[k].0@
                                                == "auto_detect_interface"@ && forall|
                                                j: int,
                                            |
                                                0 <= j < k ==> (#[trigger] rf@[j]).0@
                                                    != "auto_detect_interface"@;
                                        assert(forall|j: int|
                                            0 <= j < k ==> (#[trigger] rm[j]).0
                                                != "auto_detect_interface"@);
                                        lemma_field_get_found(
                                            rm,
                                            "auto_detect_interface"@,
                                            k,
                                        );
                                    }
                                    dfields.insert(i, (pair.0, Value::Obj(rf)));
                                    proof {
                                        assert(dfields@ =~= forig);
                                    }
                                    Value::Obj(dfields)
                                },
                                None => {
                                    proof {
                                        lemma_model_of_fields(rf@);
                                        assert(forall|j: int|
                                            0 <= j < rm.len() ==> (#[trigger] rm[j]).0
                                                != "auto_detect_interface"@);
                                        lemma_field_get_absent(
                                            rm,
                                            "auto_detect_interface"@,
                                        );
                                    }
                                    let rf2 = obj_set_value(
                                        rf,
                                        "auto_detect_interface",
                                        Value::Bool(true),
                                    );
                                    dfields.insert(i, (pair.0, Value::Obj(rf2)));
                                    proof {
                                        lemma_model_of_fields(forig);
                                        lemma_model_of_fields(dfields@);
                                        assert(dfields@ =~= forig.update(
                                            i as int,
                                            (forig[i as int].0, Value::Obj(rf2)),
                                        ));
                                        lemma_field_set_found(
                                            model_of_fields(forig),
                                            "route"@,
                                            ValueModel::Obj(
                                                field_set(
                                                    rm,
                                                    "auto_detect_interface"@,
                                                    ValueModel::Bool(true),
                                                ),
                                            ),
                                            i as int,
                                        );
                                        assert(model_of_fields(dfields@) =~= field_set(
                                            model_of_fields(forig),
                                            "route"@,
                                            ValueModel::Obj(
                                                field_set(
                                                    rm,
                                                    "auto_detect_interface"@,
                                                    ValueModel::Bool(true),
                                                ),
                                            ),
                                        ));
                                    }
                                    Value::Obj(dfields)
                                },
                            }
                        },
                        other => {
                            dfields.insert(i, (pair.0, other));
                            proof {
                                assert(dfields@ =~= forig);
                                assert(!(model_of(other) is Obj));
                            }
                            Value::Obj(dfields)
                        },
                    }
                },
                None => {
                    proof {
                        lemma_model_of_fields(dfields@);
                        assert(forall|j: int|
                            0 <= j < dfields@.len() ==> (#[trigger] model_of_fields(
                                dfields@,
                            )[j]).0 != "route"@);
                        lemma_field_get_absent(model_of_fields(dfields@), "route"@);
                    }
                    Value::Obj(dfields)
                },
            }
        },
        other => other,
    }
}

/// The platform patch pass.
pub fn platform_patch(doc: Value, enabled: bool, platform: Platform) -> (r: Value)
    ensures
        r@ == platform_patch_model(doc@, enabled, platform),
{
    if !enabled {
        return doc;
    }
    match platform {
        Platform::Linux => doc,
        Platform::MacOs => map_inbounds(doc, false),
        Platform::Windows => ensure_auto_detect(map_inbounds(doc, true)),
    }
}

} // verus!
