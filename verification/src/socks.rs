//! The SOCKS inbound pass: an idempotent toggle, independent of split
//! tunneling. It always removes the previous generation first — every
//! inbound tagged as the local SOCKS listener and every simple steering
//! rule scoped to it — and, when enabled, appends a fresh loopback SOCKS
//! inbound and inserts its steering rule immediately after the last
//! action rule. When disabled nothing is created, only removed.

use vstd::prelude::*;
use vstd::string::StringExecFns;
use crate::policy::Policy;
use crate::policy::PolicyModel;
use crate::rules::is_simple_socks;
use crate::rules::is_simple_socks_exec;
use crate::rules::make_socks_rule;
use crate::rules::socks_rule_model;
use crate::rules::is_str_value;
use crate::seq_util::insert_block;
use crate::seq_util::keep;
use crate::seq_util::last_where;
use crate::seq_util::lemma_keep_push;
use crate::split::p_is_action;
use crate::value::field_get;
use crate::value::field_set;
use crate::value::insert_values_at;
use crate::value::lemma_field_get_absent;
use crate::value::lemma_field_get_found;
use crate::value::lemma_field_set_absent;
use crate::value::lemma_field_set_found;
use crate::value::lemma_model_of_fields;
use crate::value::lemma_model_of_fields_push;
use crate::value::lemma_model_of_seq;
use crate::value::lemma_model_of_seq_push;
use crate::value::model_of;
use crate::value::model_of_fields;
use crate::value::model_of_seq;
use crate::value::obj_get_index;
use crate::value::value_get;
use crate::value::value_get_model;
use crate::value::Value;
use crate::value::ValueModel;

verus! {

/// An inbound tagged as the local SOCKS listener.
pub open spec fn is_socks_inbound(m: ValueModel) -> bool {
    value_get_model(m, "tag"@) == Some(ValueModel::Str("socks-in"@))
}

pub fn is_socks_inbound_exec(r: &Value) -> (b: bool)
    ensures
        b == is_socks_inbound(r@),
{
    match value_get(r, "tag") {
        Some(x) => is_str_value(x, "socks-in"),
        None => false,
    }
}

/// The inbounds that are not the SOCKS listener, as a predicate.
pub open spec fn p_not_socks_inbound() -> spec_fn(ValueModel) -> bool {
    |m: ValueModel| !is_socks_inbound(m)
}

/// The rules that are not the simple SOCKS steering rule, as a predicate.
pub open spec fn p_not_simple_socks() -> spec_fn(ValueModel) -> bool {
    |m: ValueModel| !is_simple_socks(m, "socks-in"@)
}

/// The fresh SOCKS inbound: loopback, a fixed port, sniffing on.
pub open spec fn socks_inbound_model() -> ValueModel {
    ValueModel::Obj(
        seq![
            ("type"@, ValueModel::Str("socks"@)),
            ("tag"@, ValueModel::Str("socks-in"@)),
            ("listen"@, ValueModel::Str("127.0.0.1"@)),
            ("listen_port"@, ValueModel::Int(2080)),
            ("sniff"@, ValueModel::Bool(true)),
        ],
    )
}

/// The outbound tag of the SOCKS steering rule: the policy's proxy
/// outbound, or the literal default when it is blank.
pub open spec fn socks_outbound(p: PolicyModel) -> Seq<char> {
    if p.proxy_outbound.len() == 0 {
        "proxy"@
    } else {
        p.proxy_outbound
    }
}

/// The document with every SOCKS-tagged inbound removed.
pub open spec fn strip_socks_inbounds_model(doc: ValueModel) -> ValueModel {
    match value_get_model(doc, "inbounds"@) {
        Some(ValueModel::Arr(items)) => crate::value::value_set_model(
            doc,
            "inbounds"@,
            ValueModel::Arr(keep(items, p_not_socks_inbound())),
        ),
        _ => doc,
    }
}

/// The document with every simple SOCKS steering rule removed.
pub open spec fn strip_socks_rules_model(doc: ValueModel) -> ValueModel {
    match value_get_model(doc, "route"@) {
        Some(ValueModel::Obj(rf)) => match field_get(rf, "rules"@) {
            Some(ValueModel::Arr(rs)) => crate::value::value_set_model(
                doc,
                "route"@,
                ValueModel::Obj(
                    field_set(rf, "rules"@, ValueModel::Arr(keep(rs, p_not_simple_socks()))),
                ),
            ),
            _ => doc,
        },
        _ => doc,
    }
}

/// The document with the fresh SOCKS inbound appended, creating the
/// inbound list when absent or malformed.
pub open spec fn add_socks_inbound_model(doc: ValueModel) -> ValueModel {
    match doc {
        ValueModel::Obj(df) => {
            let items = match field_get(df, "inbounds"@) {
                Some(ValueModel::Arr(x)) => x,
                _ => Seq::empty(),
            };
            ValueModel::Obj(
                field_set(df, "inbounds"@, ValueModel::Arr(items.push(socks_inbound_model()))),
            )
        },
        _ => doc,
    }
}

/// The document with the SOCKS steering rule inserted immediately after
/// the last action rule, creating the route structure when absent or
/// malformed.
pub open spec fn add_socks_rule_model(doc: ValueModel, out_tag: Seq<char>) -> ValueModel {
    match doc {
        ValueModel::Obj(df) => {
            let rf = match field_get(df, "route"@) {
                Some(ValueModel::Obj(x)) => x,
                _ => Seq::empty(),
            };
            let rs = match field_get(rf, "rules"@) {
                Some(ValueModel::Arr(x)) => x,
                _ => Seq::empty(),
            };
            let rs2 = insert_block(
                rs,
                last_where(rs, p_is_action()) + 1,
                seq![socks_rule_model("socks-in"@, out_tag)],
            );
            ValueModel::Obj(
                field_set(df, "route"@, ValueModel::Obj(field_set(rf, "rules"@, ValueModel::Arr(rs2)))),
            )
        },
        _ => doc,
    }
}

/// The whole SOCKS pass.
pub open spec fn socks_pass_model(doc: ValueModel, p: PolicyModel) -> ValueModel {
    let d1 = strip_socks_rules_model(strip_socks_inbounds_model(doc));
    if p.socks5_enabled {
        add_socks_rule_model(add_socks_inbound_model(d1), socks_outbound(p))
    } else {
        d1
    }
}

/// Removes every SOCKS-tagged inbound from the list.
fn strip_socks_items(items: Vec<Value>) -> (r: Vec<Value>)
    ensures
        model_of_seq(r@) == keep(model_of_seq(items@), p_not_socks_inbound()),
{
    let ghost orig = items@;
    let ghost morig = model_of_seq(items@);
    proof {
        lemma_model_of_seq(orig);
    }
    let mut rest = items;
    let mut out: Vec<Value> = Vec::new();
    proof {
        assert(rest@ =~= orig.subrange(orig.len() - rest@.len(), orig.len() as int));
        assert(morig.subrange(0, 0) =~= Seq::<ValueModel>::empty());
    }
    while rest.len() > 0
        invariant
            rest@.len() <= orig.len(),
            morig == model_of_seq(orig),
            morig.len() == orig.len(),
            forall|j: int| 0 <= j < orig.len() ==> #[trigger] morig[j] == model_of(orig[j]),
            rest@ =~= orig.subrange(orig.len() - rest@.len(), orig.len() as int),
            model_of_seq(out@) == keep(
                morig.subrange(0, orig.len() - rest@.len()),
                p_not_socks_inbound(),
            ),
        decreases rest@.len(),
    {
        let ghost pre = rest@;
        let ghost done: int = orig.len() - pre.len();
        let item = rest.remove(0);
        proof {
            assert(item == orig[done]);
            assert(rest@ =~= orig.subrange(done + 1, orig.len() as int));
            assert(morig.subrange(0, done + 1) =~= morig.subrange(0, done).push(morig[done]));
            lemma_keep_push(morig.subrange(0, done), p_not_socks_inbound(), morig[done]);
            assert(p_not_socks_inbound()(morig[done]) == !is_socks_inbound(morig[done]));
        }
        if !is_socks_inbound_exec(&item) {
            let ghost before = out@;
            out.push(item);
            proof {
                lemma_model_of_seq_push(before, orig[done]);
            }
        }
    }
    proof {
        assert(morig.subrange(0, morig.len() as int) =~= morig);
    }
    out
}

/// Removes every simple SOCKS steering rule from the list.
fn strip_socks_rules_items(rules: Vec<Value>) -> (r: Vec<Value>)
    ensures
        model_of_seq(r@) == keep(model_of_seq(rules@), p_not_simple_socks()),
{
    let ghost orig = rules@;
    let ghost morig = model_of_seq(rules@);
    proof {
        lemma_model_of_seq(orig);
    }
    let mut rest = rules;
    let mut out: Vec<Value> = Vec::new();
    proof {
        assert(rest@ =~= orig.subrange(orig.len() - rest@.len(), orig.len() as int));
        assert(morig.subrange(0, 0) =~= Seq::<ValueModel>::empty());
    }
    while rest.len() > 0
        invariant
            rest@.len() <= orig.len(),
            morig == model_of_seq(orig),
            morig.len() == orig.len(),
            forall|j: int| 0 <= j < orig.len() ==> #[trigger] morig[j] == model_of(orig[j]),
            rest@ =~= orig.subrange(orig.len() - rest@.len(), orig.len() as int),
            model_of_seq(out@) == keep(
                morig.subrange(0, orig.len() - rest@.len()),
                p_not_simple_socks(),
            ),
        decreases rest@.len(),
    {
        let ghost pre = rest@;
        let ghost done: int = orig.len() - pre.len();
        let rule = rest.remove(0);
        proof {
            assert(rule == orig[done]);
            assert(rest@ =~= orig.subrange(done + 1, orig.len() as int));
            assert(morig.subrange(0, done + 1) =~= morig.subrange(0, done).push(morig[done]));
            lemma_keep_push(morig.subrange(0, done), p_not_simple_socks(), morig[done]);
            assert(p_not_simple_socks()(morig[done]) == !is_simple_socks(
                morig[done],
                "socks-in"@,
            ));
        }
        if !is_simple_socks_exec(&rule, "socks-in") {
            let ghost before = out@;
            out.push(rule);
            proof {
                lemma_model_of_seq_push(before, orig[done]);
            }
        }
    }
    proof {
        assert(morig.subrange(0, morig.len() as int) =~= morig);
    }
    out
}

/// The fresh SOCKS inbound.
fn make_socks_inbound() -> (r: Value)
    ensures
        r@ == socks_inbound_model(),
{
    let mut fields: Vec<(String, Value)> = Vec::new();
    fields.push((String::from_str("type"), Value::Str(String::from_str("socks"))));
    fields.push((String::from_str("tag"), Value::Str(String::from_str("socks-in"))));
    fields.push((String::from_str("listen"), Value::Str(String::from_str("127.0.0.1"))));
    fields.push((String::from_str("listen_port"), Value::Int(2080)));
    fields.push((String::from_str("sniff"), Value::Bool(true)));
    let ghost fv = fields@;
    let r = Value::Obj(fields);
    proof {
        lemma_model_of_fields(fv);
        assert(model_of_fields(fv) =~= seq![
            ("type"@, ValueModel::Str("socks"@)),
            ("tag"@, ValueModel::Str("socks-in"@)),
            ("listen"@, ValueModel::Str("127.0.0.1"@)),
            ("listen_port"@, ValueModel::Int(2080)),
            ("sniff"@, ValueModel::Bool(true)),
        ]);
    }
    r
}

/// Removes every SOCKS-tagged inbound of the document.
fn strip_socks_inbounds(doc: Value) -> (r: Value)
    ensures
        r@ == strip_socks_inbounds_model(doc@),
{
    let ghost dm = doc@;
    match doc {
        Value::Obj(dfields) => {
            let ghost forig = dfields@;
            let mut dfields = dfields;
            match obj_get_index(&dfields, "inbounds") {
                Some(i) => {
                    proof {
                        lemma_model_of_fields(forig);
                        assert(forall|j: int|
                            0 <= j < i ==> (#[trigger] model_of_fields(forig)[j]).0
                                != "inbounds"@);
                        lemma_field_get_found(model_of_fields(forig), "inbounds"@, i as int);
                    }
                    let pair = dfields.remove(i);
                    match pair.1 {
                        Value::Arr(items) => {
                            let ghost im = model_of_seq(items@);
                            let new_items = strip_socks_items(items);
                            dfields.insert(i, (pair.0, Value::Arr(new_items)));
                            proof {
                                lemma_model_of_fields(dfields@);
                                assert(dfields@ =~= forig.update(
                                    i as int,
                                    (forig[i as int].0, Value::Arr(new_items)),
                                ));
                                lemma_field_set_found(
                                    model_of_fields(forig),
                                    "inbounds"@,
                                    ValueModel::Arr(keep(im, p_not_socks_inbound())),
                                    i as int,
                                );
                                assert(model_of_fields(dfields@) =~= field_set(
                                    model_of_fields(forig),
                                    "inbounds"@,
                                    ValueModel::Arr(keep(im, p_not_socks_inbound())),
                                ));
                            }
                            Value::Obj(dfields)
                        },
                        other => {
                            dfields.insert(i, (pair.0, other));
                            proof {
                                assert(dfields@ =~= forig);
                                assert(!(model_of(other) is Arr));
                            }
                            Value::Obj(dfields)
                        },
                    }
                },
                None => {
                    proof {
                        lemma_model_of_fields(dfields@);
                        assert(forall|j: int|
                            0 <= j < dfields@.len() ==> (#[trigger] model_of_fields(
                                dfields@,
                            )[j]).0 != "inbounds"@);
                        lemma_field_get_absent(model_of_fields(dfields@), "inbounds"@);
                    }
                    Value::Obj(dfields)
                },
            }
        },
        other => other,
    }
}

/// Removes every simple SOCKS steering rule of the document.
fn strip_socks_rules(doc: Value) -> (r: Value)
    ensures
        r@ == strip_socks_rules_model(doc@),
{
    let ghost dm = doc@;
    match doc {
        Value::Obj(dfields) => {
            let ghost forig = dfields@;
            let mut dfields = dfields;
            match obj_get_index(&dfields, "route") {
                Some(i) => {
                    proof {
                        lemma_model_of_fields(forig);
                        assert(forall|j: int|
                            0 <= j < i ==> (#[trigger] model_of_fields(forig)[j]).0
                                != "route"@);
                        lemma_field_get_found(model_of_fields(forig), "route"@, i as int);
                    }
                    let pair = dfields.remove(i);
                    match pair.1 {
                        Value::Obj(rf) => {
                            let ghost rforig = rf@;
                            let ghost rm = model_of_fields(rf@);
                            let mut rf = rf;
                            match obj_get_index(&rf, "rules") {
                                Some(k) => {
                                    proof {
                                        lemma_model_of_fields(rforig);
                                        assert(forall|j: int|
                                            0 <= j < k ==> (#[trigger] model_of_fields(
                                                rforig,
                                            )[j]).0 != "rules"@);
                                        lemma_field_get_found(rm, "rules"@, k as int);
                                    }
                                    let rpair = rf.remove(k);
                                    match rpair.1 {
                                        Value::Arr(rs) => {
                                            let ghost rsm = model_of_seq(rs@);
                                            let new_rs = strip_socks_rules_items(rs);
                                            let ghost newr = ValueModel::Arr(
                                                keep(rsm, p_not_simple_socks()),
                                            );
                                            rf.insert(k, (rpair.0, Value::Arr(new_rs)));
                                            proof {
                                                lemma_model_of_fields(rf@);
                                                assert(rf@ =~= rforig.update(
                                                    k as int,
                                                    (rforig[k as int].0, Value::Arr(new_rs)),
                                                ));
                                                lemma_field_set_found(
                                                    rm,
                                                    "rules"@,
                                                    newr,
                                                    k as int,
                                                );
                                                assert(model_of_fields(rf@) =~= field_set(
                                                    rm,
                                                    "rules"@,
                                                    newr,
                                                ));
                                            }
                                            let ghost rfnew = rf@;
                                            dfields.insert(i, (pair.0, Value::Obj(rf)));
                                            proof {
                                                lemma_model_of_fields(dfields@);
                                                assert(dfields@[i as int].1@
                                                    == ValueModel::Obj(
                                                    field_set(rm, "rules"@, newr),
                                                ));
                                                assert(dfields@ =~= forig.update(
                                                    i as int,
                                                    (forig[i as int].0, dfields@[i as int].1),
                                                ));
                                                lemma_field_set_found(
                                                    model_of_fields(forig),
                                                    "route"@,
                                                    ValueModel::Obj(
                                                        field_set(rm, "rules"@, newr),
                                                    ),
                                                    i as int,
                                                );
                                                assert(model_of_fields(dfields@)
                                                    =~= field_set(
                                                    model_of_fields(forig),
                                                    "route"@,
                                                    ValueModel::Obj(
                                                        field_set(rm, "rules"@, newr),
                                                    ),
                                                ));
                                            }
                                            Value::Obj(dfields)
                                        },
                                        rother => {
                                            proof {
                                                assert(!(model_of(rother) is Arr));
                                            }
                                            rf.insert(k, (rpair.0, rother));
                                            proof {
                                                assert(rf@ =~= rforig.update(
                                                    k as int,
                                                    (rforig[k as int].0, rf@[k as int].1),
                                                ));
                                                lemma_model_of_fields(rf@);
                                                assert(model_of_fields(rf@) =~= rm);
                                            }
                                            dfields.insert(i, (pair.0, Value::Obj(rf)));
                                            proof {
                                                lemma_model_of_fields(dfields@);
                                                assert(dfields@ =~= forig.update(
                                                    i as int,
                                                    (forig[i as int].0, dfields@[i as int].1),
                                                ));
                                                assert(model_of_fields(dfields@)
                                                    =~= model_of_fields(forig));
                                            }
                                            Value::Obj(dfields)
                                        },
                                    }
                                },
                                None => {
                                    proof {
                                        lemma_model_of_fields(rf@);
                                        assert(forall|j: int|
                                            0 <= j < rf@.len() ==> (
                                            #[trigger] model_of_fields(rf@)[j]).0
                                                != "rules"@);
                                        lemma_field_get_absent(rm, "rules"@);
                                    }
                                    dfields.insert(i, (pair.0, Value::Obj(rf)));
                                    proof {
                                        assert(dfields@ =~= forig);
                                    }
                                    Value::Obj(dfields)
                                },
                            }
                        },
                        other => {
                            dfields.insert(i, (pair.0, other));
                            proof {
                                assert(dfields@ =~= forig);
                                assert(!(model_of(other) is Obj));
                            }
                            Value::Obj(dfields)
                        },
                    }
                },
                None => {
                    proof {
                        lemma_model_of_fields(dfields@);
                        assert(forall|j: int|
                            0 <= j < dfields@.len() ==> (#[trigger] model_of_fields(
                                dfields@,
                            )[j]).0 != "route"@);
                        lemma_field_get_absent(model_of_fields(dfields@), "route"@);
                    }
                    Value::Obj(dfields)
                },
            }
        },
        other => other,
    }
}

/// Appends the fresh SOCKS inbound to the document's inbound list,
/// creating or replacing the list as needed.
fn add_socks_inbound(doc: Value) -> (r: Value)
    ensures
        r@ == add_socks_inbound_model(doc@),
{
    match doc {
        Value::Obj(dfields) => {
            let ghost forig = dfields@;
            let mut dfields = dfields;
            match obj_get_index(&dfields, "inbounds") {
                Some(i) => {
                    proof {
                        lemma_model_of_fields(forig);
                        assert(forall|j: int|
                            0 <= j < i ==> (#[trigger] model_of_fields(forig)[j]).0
                                != "inbounds"@);
                        lemma_field_get_found(model_of_fields(forig), "inbounds"@, i as int);
                    }
                    let pair = dfields.remove(i);
                    let mut items = match pair.1 {
                        Value::Arr(v) => v,
                        _ => Vec::new(),
                    };
                    let ghost im = match field_get(model_of_fields(forig), "inbounds"@) {
                        Some(ValueModel::Arr(x)) => x,
                        _ => Seq::<ValueModel>::empty(),
                    };
                    proof {
                        assert(model_of_seq(items@) == im);
                    }
                    let ghost pre = items@;
                    items.push(make_socks_inbound());
                    proof {
                        lemma_model_of_seq_push(pre, items@.last());
                    }
                    dfields.insert(i, (pair.0, Value::Arr(items)));
                    proof {
                        lemma_model_of_fields(dfields@);
                        assert(dfields@ =~= forig.update(
                            i as int,
                            (forig[i as int].0, dfields@[i as int].1),
                        ));
                        lemma_field_set_found(
                            model_of_fields(forig),
                            "inbounds"@,
                            ValueModel::Arr(im.push(socks_inbound_model())),
                            i as int,
                        );
                        assert(model_of_fields(dfields@) =~= field_set(
                            model_of_fields(forig),
                            "inbounds"@,
                            ValueModel::Arr(im.push(socks_inbound_model())),
                        ));
                    }
                    Value::Obj(dfields)
                },
                None => {
                    proof {
                        lemma_model_of_fields(dfields@);
                        assert(forall|j: int|
                            0 <= j < dfields@.len() ==> (#[trigger] model_of_fields(
                                dfields@,
                            )[j]).0 != "inbounds"@);
                        lemma_field_get_absent(model_of_fields(dfields@), "inbounds"@);
                    }
                    let mut items: Vec<Value> = Vec::new();
                    items.push(make_socks_inbound());
                    let ghost iv = items@;
                    let ghost pre = dfields@;
                    dfields.push((String::from_str("inbounds"), Value::Arr(items)));
                    proof {
                        lemma_model_of_seq(iv);
                        assert(model_of_seq(iv) =~= Seq::<ValueModel>::empty().push(
                            socks_inbound_model(),
                        ));
                        lemma_model_of_fields_push(pre, dfields@.last());
                        lemma_field_set_absent(
                            model_of_fields(pre),
                            "inbounds"@,
                            ValueModel::Arr(
                                Seq::<ValueModel>::empty().push(socks_inbound_model()),
                            ),
                        );
                    }
                    Value::Obj(dfields)
                },
            }
        },
        other => other,
    }
}

/// The route fields with the SOCKS steering rule inserted immediately
/// after the last action rule, creating the rule list as needed.
fn add_rule_to_fields(rf: Vec<(String, Value)>, out_tag: &str) -> (r: Vec<(String, Value)>)
    ensures
        model_of_fields(r@) == ({
            let rs = match field_get(model_of_fields(rf@), "rules"@) {
                Some(ValueModel::Arr(x)) => x,
                _ => Seq::<ValueModel>::empty(),
            };
            field_set(
                model_of_fields(rf@),
                "rules"@,
                ValueModel::Arr(
                    insert_block(
                        rs,
                        last_where(rs, p_is_action()) + 1,
                        seq![socks_rule_model("socks-in"@, out_tag@)],
                    ),
                ),
            )
        }),
{
    let ghost rforig = rf@;
    let ghost rm = model_of_fields(rf@);
    let mut rf = rf;
    match obj_get_index(&rf, "rules") {
        Some(k) => {
            proof {
                lemma_model_of_fields(rforig);
                assert(forall|j: int|
                    0 <= j < k ==> (#[trigger] model_of_fields(rforig)[j]).0 != "rules"@);
                lemma_field_get_found(rm, "rules"@, k as int);
            }
            let rpair = rf.remove(k);
            let rs = match rpair.1 {
                Value::Arr(v) => v,
                _ => Vec::new(),
            };
            let ghost rsm = match field_get(rm, "rules"@) {
                Some(ValueModel::Arr(x)) => x,
                _ => Seq::<ValueModel>::empty(),
            };
            proof {
                assert(model_of_seq(rs@) == rsm);
            }
            let pos = crate::split::find_insert_pos(&rs);
            let mut block: Vec<Value> = Vec::new();
            block.push(make_socks_rule("socks-in", out_tag));
            let ghost bv = block@;
            proof {
                lemma_model_of_seq(bv);
                assert(model_of_seq(bv) =~= seq![socks_rule_model("socks-in"@, out_tag@)]);
            }
            let new_rs = insert_values_at(rs, pos, block);
            let ghost newr = ValueModel::Arr(
                insert_block(
                    rsm,
                    last_where(rsm, p_is_action()) + 1,
                    seq![socks_rule_model("socks-in"@, out_tag@)],
                ),
            );
            rf.insert(k, (rpair.0, Value::Arr(new_rs)));
            proof {
                lemma_model_of_fields(rf@);
                assert(rf@ =~= rforig.update(
                    k as int,
                    (rforig[k as int].0, rf@[k as int].1),
                ));
                lemma_field_set_found(rm, "rules"@, newr, k as int);
                assert(model_of_fields(rf@) =~= field_set(rm, "rules"@, newr));
            }
            rf
        },
        None => {
            proof {
                lemma_model_of_fields(rforig);
                assert(forall|j: int|
                    0 <= j < rforig.len() ==> (#[trigger] model_of_fields(rforig)[j]).0
                        != "rules"@);
                lemma_field_get_absent(rm, "rules"@);
            }
            let mut rs: Vec<Value> = Vec::new();
            rs.push(make_socks_rule("socks-in", out_tag));
            let ghost rv = rs@;
            let ghost pre = rf@;
            rf.push((String::from_str("rules"), Value::Arr(rs)));
            proof {
                lemma_model_of_seq(rv);
                let rule = socks_rule_model("socks-in"@, out_tag@);
                assert(model_of_seq(rv) =~= seq![rule]);
                let rs0 = Seq::<ValueModel>::empty();
                assert(last_where(rs0, p_is_action()) == -1);
                assert(insert_block(rs0, 0, seq![rule]) =~= seq![rule]);
                lemma_model_of_fields_push(pre, rf@.last());
                lemma_field_set_absent(rm, "rules"@, ValueModel::Arr(seq![rule]));
            }
            rf
        },
    }
}

/// Inserts the SOCKS steering rule, creating the route structure as
/// needed.
fn add_socks_rule(doc: Value, out_tag: &str) -> (r: Value)
    ensures
        r@ == add_socks_rule_model(doc@, out_tag@),
{
    match doc {
        Value::Obj(dfields) => {
            let ghost forig = dfields@;
            let mut dfields = dfields;
            match obj_get_index(&dfields, "route") {
                Some(i) => {
                    proof {
                        lemma_model_of_fields(forig);
                        assert(forall|j: int|
                            0 <= j < i ==> (#[trigger] model_of_fields(forig)[j]).0
                                != "route"@);
                        lemma_field_get_found(model_of_fields(forig), "route"@, i as int);
                    }
                    let pair = dfields.remove(i);
                    let rf = match pair.1 {
                        Value::Obj(v) => v,
                        _ => Vec::new(),
                    };
                    let ghost rm = match field_get(model_of_fields(forig), "route"@) {
                        Some(ValueModel::Obj(x)) => x,
                        _ => Seq::<(Seq<char>, ValueModel)>::empty(),
                    };
                    proof {
                        assert(model_of_fields(rf@) == rm);
                    }
                    let new_rf = add_rule_to_fields(rf, out_tag);
                    let ghost newroute = ValueModel::Obj(model_of_fields(new_rf@));
                    dfields.insert(i, (pair.0, Value::Obj(new_rf)));
                    proof {
                        lemma_model_of_fields(dfields@);
                        assert(dfields@ =~= forig.update(
                            i as int,
                            (forig[i as int].0, dfields@[i as int].1),
                        ));
                        lemma_field_set_found(
                            model_of_fields(forig),
                            "route"@,
                            newroute,
                            i as int,
                        );
                        assert(model_of_fields(dfields@) =~= field_set(
                            model_of_fields(forig),
                            "route"@,
                            newroute,
                        ));
                    }
                    Value::Obj(dfields)
                },
                None => {
                    proof {
                        lemma_model_of_fields(dfields@);
                        assert(forall|j: int|
                            0 <= j < dfields@.len() ==> (#[trigger] model_of_fields(
                                dfields@,
                            )[j]).0 != "route"@);
                        lemma_field_get_absent(model_of_fields(dfields@), "route"@);
                        assert(model_of_fields(Seq::<(String, Value)>::empty()) =~= Seq::<
                            (Seq<char>, ValueModel),
                        >::empty());
                    }
                    let new_rf = add_rule_to_fields(Vec::new(), out_tag);
                    let ghost newroute = ValueModel::Obj(model_of_fields(new_rf@));
                    let ghost pre = dfields@;
                    dfields.push((String::from_str("route"), Value::Obj(new_rf)));
                    proof {
                        lemma_model_of_fields_push(pre, dfields@.last());
                        lemma_field_set_absent(model_of_fields(pre), "route"@, newroute);
                    }
                    Value::Obj(dfields)
                },
            }
        },
        other => other,
    }
}

/// The SOCKS inbound pass.
pub fn socks_pass(doc: Value, policy: &Policy) -> (r: Value)
    ensures
        r@ == socks_pass_model(doc@, policy@),
{
    let d1 = strip_socks_rules(strip_socks_inbounds(doc));
    if policy.socks5_enabled {
        let d2 = add_socks_inbound(d1);
        if policy.proxy_outbound.as_str().is_empty() {
            add_socks_rule(d2, "proxy")
        } else {
            add_socks_rule(d2, policy.proxy_outbound.as_str())
        }
    } else {
        d1
    }
}

} // verus!
