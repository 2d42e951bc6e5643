//! The legacy process-tunnel pass: on Windows only, when the legacy
//! toggle is on and its process list non-empty, a steering rule with the
//! raw, unnormalized process list is prepended to the rule list — every
//! run, without removing a previous generation first. That accumulation
//! is a known trait of the legacy feature, kept for compatibility.

use vstd::prelude::*;
use vstd::string::StringExecFns;
use crate::policy::Platform;
use crate::policy::Policy;
use crate::policy::PolicyModel;
use crate::rules::legacy_rule_model;
use crate::rules::make_legacy_rule;
use crate::value::field_get;
use crate::value::field_set;
use crate::value::lemma_field_get_absent;
use crate::value::lemma_field_get_found;
use crate::value::lemma_field_set_absent;
use crate::value::lemma_field_set_found;
use crate::value::lemma_model_of_fields;
use crate::value::lemma_model_of_fields_push;
use crate::value::lemma_model_of_seq;
use crate::value::model_of;
use crate::value::model_of_fields;
use crate::value::model_of_seq;
use crate::value::obj_get_index;
use crate::value::Value;
use crate::value::ValueModel;

verus! {

/// Whether the legacy pass applies at all.
pub open spec fn legacy_active(p: PolicyModel, platform: Platform) -> bool {
    platform is Windows && p.legacy_enabled && p.legacy_processes.len() > 0
}

/// The whole legacy pass.
pub open spec fn legacy_pass_model(
    doc: ValueModel,
    p: PolicyModel,
    platform: Platform,
) -> ValueModel {
    if !legacy_active(p, platform) {
        doc
    } else {
        match doc {
            ValueModel::Obj(df) => {
                let rf = match field_get(df, "route"@) {
                    Some(ValueModel::Obj(x)) => x,
                    _ => Seq::empty(),
                };
                let rs = match field_get(rf, "rules"@) {
                    Some(ValueModel::Arr(x)) => x,
                    _ => Seq::empty(),
                };
                let rs2 = seq![legacy_rule_model(p.legacy_processes, p.proxy_outbound)] + rs;
                ValueModel::Obj(
                    field_set(
                        df,
                        "route"@,
                        ValueModel::Obj(field_set(rf, "rules"@, ValueModel::Arr(rs2))),
                    ),
                )
            },
            _ => doc,
        }
    }
}

/// The route fields with `rule` prepended to the rule list, creating the
/// list as needed.
fn prepend_rule_to_fields(rf: Vec<(String, Value)>, rule: Value) -> (r: Vec<(String, Value)>)
    ensures
        model_of_fields(r@) == ({
            let rs = match field_get(model_of_fields(rf@), "rules"@) {
                Some(ValueModel::Arr(x)) => x,
                _ => Seq::<ValueModel>::empty(),
            };
            field_set(model_of_fields(rf@), "rules"@, ValueModel::Arr(seq![rule@] + rs))
        }),
{
    let ghost rforig = rf@;
    let ghost rm = model_of_fields(rf@);
    let ghost rulem = rule@;
    let mut rf = rf;
    match obj_get_index(&rf, "rules") {
        Some(k) => {
            proof {
                lemma_model_of_fields(rforig);
                assert(forall|j: int|
                    0 <= j < k ==> (#[trigger] model_of_fields(rforig)[j]).0 != "rules"@);
                lemma_field_get_found(rm, "rules"@, k as int);
            }
            let rpair = rf.remove(k);
            let mut rs = match rpair.1 {
                Value::Arr(v) => v,
                _ => Vec::new(),
            };
            let ghost rsm = match field_get(rm, "rules"@) {
                Some(ValueModel::Arr(x)) => x,
                _ => Seq::<ValueModel>::empty(),
            };
            proof {
                assert(model_of_seq(rs@) == rsm);
            }
            let ghost pre = rs@;
            rs.insert(0, rule);
            proof {
                assert(rs@ =~= seq![rs@[0]] + pre);
                lemma_model_of_seq(rs@);
                lemma_model_of_seq(pre);
                assert(model_of_seq(rs@) =~= seq![rulem] + rsm);
            }
            let ghost newr = ValueModel::Arr(seq![rulem] + rsm);
            rf.insert(k, (rpair.0, Value::Arr(rs)));
            proof {
                lemma_model_of_fields(rf@);
                assert(rf@ =~= rforig.update(
                    k as int,
                    (rforig[k as int].0, rf@[k as int].1),
                ));
                lemma_field_set_found(rm, "rules"@, newr, k as int);
                assert(model_of_fields(rf@) =~= field_set(rm, "rules"@, newr));
            }
            rf
        },
        None => {
            proof {
                lemma_model_of_fields(rforig);
                assert(forall|j: int|
                    0 <= j < rforig.len() ==> (#[trigger] model_of_fields(rforig)[j]).0
                        != "rules"@);
                lemma_field_get_absent(rm, "rules"@);
            }
            let mut rs: Vec<Value> = Vec::new();
            rs.push(rule);
            let ghost rv = rs@;
            let ghost pre = rf@;
            rf.push((String::from_str("rules"), Value::Arr(rs)));
            proof {
                lemma_model_of_seq(rv);
                assert(model_of_seq(rv) =~= seq![rulem] + Seq::<ValueModel>::empty());
                lemma_model_of_fields_push(pre, rf@.last());
                lemma_field_set_absent(
                    rm,
                    "rules"@,
                    ValueModel::Arr(seq![rulem] + Seq::<ValueModel>::empty()),
                );
            }
            rf
        },
    }
}

/// The legacy process-tunnel pass.
pub fn legacy_pass(doc: Value, policy: &Policy, platform: Platform) -> (r: Value)
    ensures
        r@ == legacy_pass_model(doc@, policy@, platform),
{
    if !(platform == Platform::Windows && policy.legacy_enabled
        && policy.legacy_processes.len() > 0) {
        return doc;
    }
    let mut procs: Vec<String> = Vec::new();
    let mut i: usize = 0;
    while i < policy.legacy_processes.len()
        invariant
            i <= policy.legacy_processes@.len(),
            procs@.len() == i,
            forall|j: int| 0 <= j < i ==> #[trigger] procs@[j]@ == policy.legacy_processes@[j]@,
        decreases policy.legacy_processes@.len() - i,
    {
        procs.push(policy.legacy_processes[i].clone());
        i = i + 1;
    }
    proof {
        assert(crate::strings::views_of(procs@) =~= crate::strings::views_of(
            policy.legacy_processes@,
        ));
    }
    let rule = make_legacy_rule(procs, policy.proxy_outbound.as_str());
    match doc {
        Value::Obj(dfields) => {
            let ghost forig = dfields@;
            let mut dfields = dfields;
            match obj_get_index(&dfields, "route") {
                Some(i) => {
                    proof {
                        lemma_model_of_fields(forig);
                        assert(forall|j: int|
                            0 <= j < i ==> (#[trigger] model_of_fields(forig)[j]).0
                                != "route"@);
                        lemma_field_get_found(model_of_fields(forig), "route"@, i as int);
                    }
                    let pair = dfields.remove(i);
                    let rf = match pair.1 {
                        Value::Obj(v) => v,
                        _ => Vec::new(),
                    };
                    let ghost rm = match field_get(model_of_fields(forig), "route"@) {
                        Some(ValueModel::Obj(x)) => x,
                        _ => Seq::<(Seq<char>, ValueModel)>::empty(),
                    };
                    proof {
                        assert(model_of_fields(rf@) == rm);
                    }
                    let new_rf = prepend_rule_to_fields(rf, rule);
                    let ghost newroute = ValueModel::Obj(model_of_fields(new_rf@));
                    dfields.insert(i, (pair.0, Value::Obj(new_rf)));
                    proof {
                        lemma_model_of_fields(dfields@);
                        assert(dfields@ =~= forig.update(
                            i as int,
                            (forig[i as int].0, dfields@[i as int].1),
                        ));
                        lemma_field_set_found(
                            model_of_fields(forig),
                            "route"@,
                            newroute,
                            i as int,
                        );
                        assert(model_of_fields(dfields@) =~= field_set(
                            model_of_fields(forig),
                            "route"@,
                            newroute,
                        ));
                    }
                    Value::Obj(dfields)
                },
                None => {
                    proof {
                        lemma_model_of_fields(dfields@);
                        assert(forall|j: int|
                            0 <= j < dfields@.len() ==> (#[trigger] model_of_fields(
                                dfields@,
                            )[j]).0 != "route"@);
                        lemma_field_get_absent(model_of_fields(dfields@), "route"@);
                        assert(model_of_fields(Seq::<(String, Value)>::empty()) =~= Seq::<
                            (Seq<char>, ValueModel),
                        >::empty());
                    }
                    let new_rf = prepend_rule_to_fields(Vec::new(), rule);
                    let ghost newroute = ValueModel::Obj(model_of_fields(new_rf@));
                    let ghost pre = dfields@;
                    dfields.push((String::from_str("route"), Value::Obj(new_rf)));
                    proof {
                        lemma_model_of_fields_push(pre, dfields@.last());
                        lemma_field_set_absent(model_of_fields(pre), "route"@, newroute);
                    }
                    Value::Obj(dfields)
                },
            }
        },
        other => other,
    }
}

} // verus!
