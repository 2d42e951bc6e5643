//! The split-routing pass, the core of the engine. When the policy is
//! enabled it flips the route default to the direct outbound, fills in
//! `find_process` when app lists need it, guarantees the sniff and DNS
//! action rules, removes the unconditional catch-all and every rule of a
//! previous generation, and inserts the fresh steering rules as one block
//! immediately after the last action rule — bypass rules before proxy
//! rules, path and name rules before domain rules, so that under
//! first-match routing an explicitly bypassed app always wins.

use vstd::prelude::*;
use vstd::string::StringExecFns;
use crate::policy::Platform;
use crate::policy::Policy;
use crate::policy::PolicyModel;
use crate::rules::action_is;
use crate::rules::action_is_exec;
use crate::rules::dns_rule_model;
use crate::rules::find_tun_tag;
use crate::rules::is_action_rule;
use crate::rules::is_action_rule_exec;
use crate::rules::is_catch_all;
use crate::rules::is_catch_all_exec;
use crate::rules::is_generated;
use crate::rules::is_generated_exec;
use crate::rules::make_dns_rule;
use crate::rules::make_sniff_rule;
use crate::rules::make_steering_rule;
use crate::rules::sniff_rule_model;
use crate::rules::steering_rule_model;
use crate::rules::tun_tag_model;
use crate::seq_util::first_where;
use crate::seq_util::insert_block;
use crate::seq_util::keep;
use crate::seq_util::last_where;
use crate::seq_util::lemma_first_where_unique;
use crate::seq_util::lemma_keep_push;
use crate::seq_util::lemma_last_where_unique;
use crate::tokens::clean_list;
use crate::tokens::clean_list_exec;
use crate::tokens::collect_names;
use crate::tokens::collect_paths;
use crate::tokens::normalize_tokens;
use crate::strings::views_of;
use crate::value::field_get;
use crate::value::field_set;
use crate::value::lemma_field_get_absent;
use crate::value::lemma_field_get_found;
use crate::value::lemma_field_set_found;
use crate::value::lemma_field_set_absent;
use crate::value::lemma_model_of_fields;
use crate::value::lemma_model_of_seq;
use crate::value::insert_values_at;
use crate::value::model_of;
use crate::value::model_of_fields;
use crate::value::model_of_seq;
use crate::value::obj_get_index;
use crate::value::obj_set_value;
use crate::value::Value;
use crate::value::ValueModel;

verus! {

/// The rules whose action is `name`, as a predicate.
pub open spec fn p_action_named(name: Seq<char>) -> spec_fn(ValueModel) -> bool {
    |m: ValueModel| action_is(m, name)
}

/// The action rules, as a predicate.
pub open spec fn p_is_action() -> spec_fn(ValueModel) -> bool {
    |m: ValueModel| is_action_rule(m)
}

/// The rules that are not the unconditional catch-all, as a predicate.
pub open spec fn p_not_catch_all(proxy: Seq<char>, tun: Seq<char>) -> spec_fn(
    ValueModel,
) -> bool {
    |m: ValueModel| !is_catch_all(m, proxy, tun)
}

/// The rules that are not of a previous split generation, as a predicate.
pub open spec fn p_not_generated(
    proxy: Seq<char>,
    direct: Seq<char>,
    tun: Seq<char>,
) -> spec_fn(ValueModel) -> bool {
    |m: ValueModel| !is_generated(m, proxy, direct, tun)
}

/// The rule list with a sniff action rule guaranteed at position 0.
pub open spec fn ensure_sniff(rules: Seq<ValueModel>, tun: Seq<char>) -> Seq<ValueModel> {
    if first_where(rules, p_action_named("sniff"@)) >= 0 {
        rules
    } else {
        seq![sniff_rule_model(tun)] + rules
    }
}

/// The rule list with a DNS interception rule guaranteed immediately
/// after the first sniff rule.
pub open spec fn ensure_dns(rules: Seq<ValueModel>) -> Seq<ValueModel> {
    if first_where(rules, p_action_named("hijack-dns"@)) >= 0 {
        rules
    } else {
        insert_block(
            rules,
            first_where(rules, p_action_named("sniff"@)) + 1,
            seq![dns_rule_model()],
        )
    }
}

/// The rule list without the unconditional catch-all.
pub open spec fn strip_catch_all(
    rules: Seq<ValueModel>,
    proxy: Seq<char>,
    tun: Seq<char>,
) -> Seq<ValueModel> {
    keep(rules, p_not_catch_all(proxy, tun))
}

/// The rule list without any previously generated split rule.
pub open spec fn strip_generated(
    rules: Seq<ValueModel>,
    proxy: Seq<char>,
    direct: Seq<char>,
    tun: Seq<char>,
) -> Seq<ValueModel> {
    keep(rules, p_not_generated(proxy, direct, tun))
}

/// One fresh steering rule, or nothing when its token set is empty.
pub open spec fn maybe_rule(
    tun: Seq<char>,
    cond_key: Seq<char>,
    toks: Seq<Seq<char>>,
    outbound: Seq<char>,
) -> Seq<ValueModel> {
    if toks.len() == 0 {
        Seq::empty()
    } else {
        seq![steering_rule_model(tun, cond_key, toks, outbound)]
    }
}

/// The fresh steering rules, in precedence order: bypass by path, name,
/// domain, then proxy by path, name, domain.
pub open spec fn build_block(
    p: PolicyModel,
    platform: Platform,
    tun: Seq<char>,
) -> Seq<ValueModel> {
    maybe_rule(tun, "process_path"@, collect_paths(p.bypass_apps, platform), p.direct_outbound)
        + maybe_rule(
        tun,
        "process_name"@,
        collect_names(p.bypass_apps, platform),
        p.direct_outbound,
    ) + maybe_rule(tun, "domain_suffix"@, clean_list(p.bypass_domains), p.direct_outbound)
        + maybe_rule(
        tun,
        "process_path"@,
        collect_paths(p.proxy_apps, platform),
        p.proxy_outbound,
    ) + maybe_rule(tun, "process_name"@, collect_names(p.proxy_apps, platform), p.proxy_outbound)
        + maybe_rule(tun, "domain_suffix"@, clean_list(p.proxy_domains), p.proxy_outbound)
}

/// The whole rule-list transformation of the split pass.
pub open spec fn split_rules_model(
    rules: Seq<ValueModel>,
    p: PolicyModel,
    platform: Platform,
    tun: Seq<char>,
) -> Seq<ValueModel> {
    let cleaned = strip_generated(
        strip_catch_all(ensure_dns(ensure_sniff(rules, tun)), p.proxy_outbound, tun),
        p.proxy_outbound,
        p.direct_outbound,
        tun,
    );
    insert_block(cleaned, last_where(cleaned, p_is_action()) + 1, build_block(p, platform, tun))
}

/// The route object after the split pass.
pub open spec fn route_transform_model(
    rf: Seq<(Seq<char>, ValueModel)>,
    p: PolicyModel,
    platform: Platform,
    tun: Seq<char>,
) -> Seq<(Seq<char>, ValueModel)> {
    let rf1 = field_set(rf, "final"@, ValueModel::Str(p.direct_outbound));
    let rf2 = if (p.bypass_apps.len() > 0 || p.proxy_apps.len() > 0) && field_get(
        rf1,
        "find_process"@,
    ) is None {
        field_set(rf1, "find_process"@, ValueModel::Bool(true))
    } else {
        rf1
    };
    let rules0 = match field_get(rf2, "rules"@) {
        Some(ValueModel::Arr(items)) => items,
        _ => Seq::empty(),
    };
    field_set(rf2, "rules"@, ValueModel::Arr(split_rules_model(rules0, p, platform, tun)))
}

/// The whole split pass. A disabled policy, or a document that is not an
/// object, is left untouched.
pub open spec fn split_pass_model(
    doc: ValueModel,
    p: PolicyModel,
    platform: Platform,
) -> ValueModel {
    if !p.enabled {
        doc
    } else {
        match doc {
            ValueModel::Obj(df) => {
                let tun = tun_tag_model(doc);
                let rf = match field_get(df, "route"@) {
                    Some(ValueModel::Obj(x)) => x,
                    _ => Seq::empty(),
                };
                ValueModel::Obj(
                    field_set(
                        df,
                        "route"@,
                        ValueModel::Obj(route_transform_model(rf, p, platform, tun)),
                    ),
                )
            },
            _ => doc,
        }
    }
}

/// The index of the first rule whose action is `name`, if any.
fn find_first_action_named(rules: &Vec<Value>, name: &str) -> (r: Option<usize>)
    ensures
        match r {
            Some(i) => i < rules@.len() && first_where(
                model_of_seq(rules@),
                p_action_named(name@),
            ) == i,
            None => first_where(model_of_seq(rules@), p_action_named(name@)) == -1,
        },
{
    let ghost ms = model_of_seq(rules@);
    proof {
        lemma_model_of_seq(rules@);
    }
    let mut i: usize = 0;
    while i < rules.len()
        invariant
            i <= rules@.len(),
            ms == model_of_seq(rules@),
            ms.len() == rules@.len(),
            forall|j: int| 0 <= j < ms.len() ==> #[trigger] ms[j] == model_of(rules@[j]),
            forall|j: int| 0 <= j < i ==> !action_is(#[trigger] ms[j], name@),
        decreases rules@.len() - i,
    {
        if action_is_exec(&rules[i], name) {
            proof {
                assert(p_action_named(name@)(ms[i as int]));
                assert(forall|j: int|
                    0 <= j < i ==> !p_action_named(name@)(#[trigger] ms[j]));
                lemma_first_where_unique(ms, p_action_named(name@), i as int);
            }
            return Some(i);
        }
        i = i + 1;
    }
    proof {
        assert(forall|j: int| 0 <= j < ms.len() ==> !p_action_named(name@)(#[trigger] ms[j]));
        lemma_first_where_unique(ms, p_action_named(name@), -1);
    }
    None
}

/// One more than the index of the last action rule; 0 when there is none.
pub(crate) fn find_insert_pos(rules: &Vec<Value>) -> (r: usize)
    ensures
        r <= rules@.len(),
        r == last_where(model_of_seq(rules@), p_is_action()) + 1,
{
    let ghost ms = model_of_seq(rules@);
    proof {
        lemma_model_of_seq(rules@);
    }
    let mut pos: usize = 0;
    let mut i: usize = 0;
    while i < rules.len()
        invariant
            pos <= i <= rules@.len(),
            ms == model_of_seq(rules@),
            ms.len() == rules@.len(),
            forall|j: int| 0 <= j < ms.len() ==> #[trigger] ms[j] == model_of(rules@[j]),
            pos > 0 ==> is_action_rule(ms[pos - 1]),
            forall|j: int| pos <= j < i ==> !is_action_rule(#[trigger] ms[j]),
        decreases rules@.len() - i,
    {
        if is_action_rule_exec(&rules[i]) {
            pos = i + 1;
        }
        i = i + 1;
    }
    proof {
        assert(pos > 0 ==> p_is_action()(ms[pos - 1]));
        assert(forall|j: int|
            pos - 1 < j < ms.len() ==> !p_is_action()(#[trigger] ms[j]));
        lemma_last_where_unique(ms, p_is_action(), pos - 1);
    }
    pos
}

/// Guarantees the sniff action rule, inserting it at position 0.
fn ensure_sniff_exec(rules: Vec<Value>, tun: &str) -> (r: Vec<Value>)
    ensures
        model_of_seq(r@) == ensure_sniff(model_of_seq(rules@), tun@),
{
    let ghost morig = model_of_seq(rules@);
    match find_first_action_named(&rules, "sniff") {
        Some(_) => rules,
        None => {
            let mut rules = rules;
            let ghost pre = rules@;
            rules.insert(0, make_sniff_rule(tun));
            proof {
                assert(rules@ =~= seq![rules@[0]] + pre);
                lemma_model_of_seq(rules@);
                lemma_model_of_seq(pre);
                assert(model_of_seq(rules@) =~= seq![sniff_rule_model(tun@)] + morig);
            }
            rules
        },
    }
}

/// Guarantees the DNS interception rule immediately after the first
/// sniff rule.
fn ensure_dns_exec(rules: Vec<Value>) -> (r: Vec<Value>)
    ensures
        model_of_seq(r@) == ensure_dns(model_of_seq(rules@)),
{
    let ghost morig = model_of_seq(rules@);
    match find_first_action_named(&rules, "hijack-dns") {
        Some(_) => rules,
        None => {
            let n = rules.len();
            let pos = match find_first_action_named(&rules, "sniff") {
                Some(i) => {
                    proof {
                        assert(i < n);
                    }
                    i + 1
                },
                None => 0,
            };
            let mut rules = rules;
            let ghost pre = rules@;
            rules.insert(pos, make_dns_rule());
            proof {
                lemma_model_of_seq(rules@);
                lemma_model_of_seq(pre);
                assert(model_of_seq(rules@) =~= insert_block(
                    morig,
                    pos as int,
                    seq![dns_rule_model()],
                ));
            }
            rules
        },
    }
}

/// Removes every unconditional catch-all steering rule.
fn strip_catch_all_exec(rules: Vec<Value>, proxy: &str, tun: &str) -> (r: Vec<Value>)
    ensures
        model_of_seq(r@) == strip_catch_all(model_of_seq(rules@), proxy@, tun@),
{
    let ghost orig = rules@;
    let ghost morig = model_of_seq(rules@);
    proof {
        lemma_model_of_seq(orig);
    }
    let mut rest = rules;
    let mut out: Vec<Value> = Vec::new();
    proof {
        assert(rest@ =~= orig.subrange(orig.len() - rest@.len(), orig.len() as int));
        assert(orig.subrange(0, 0) =~= Seq::<Value>::empty());
    }
    while rest.len() > 0
        invariant
            rest@.len() <= orig.len(),
            morig == model_of_seq(orig),
            morig.len() == orig.len(),
            forall|j: int| 0 <= j < orig.len() ==> #[trigger] morig[j] == model_of(orig[j]),
            rest@ =~= orig.subrange(orig.len() - rest@.len(), orig.len() as int),
            model_of_seq(out@) == keep(
                morig.subrange(0, orig.len() - rest@.len()),
                p_not_catch_all(proxy@, tun@),
            ),
        decreases rest@.len(),
    {
        let ghost pre = rest@;
        let ghost done: int = orig.len() - pre.len();
        let rule = rest.remove(0);
        proof {
            assert(rule == orig[done]);
            assert(rest@ =~= orig.subrange(done + 1, orig.len() as int));
            assert(morig.subrange(0, done + 1) =~= morig.subrange(0, done).push(morig[done]));
            lemma_keep_push(morig.subrange(0, done), p_not_catch_all(proxy@, tun@), morig[done]);
            assert(p_not_catch_all(proxy@, tun@)(morig[done]) == !is_catch_all(
                morig[done],
                proxy@,
                tun@,
            ));
        }
        if !is_catch_all_exec(&rule, proxy, tun) {
            let ghost before = out@;
            out.push(rule);
            proof {
                crate::value::lemma_model_of_seq_push(before, orig[done]);
            }
        }
    }
    proof {
        assert(morig.subrange(0, morig.len() as int) =~= morig);
    }
    out
}

/// Removes every rule of a previous split generation.
fn strip_generated_exec(rules: Vec<Value>, proxy: &str, direct: &str, tun: &str) -> (r: Vec<
    Value,
>)
    ensures
        model_of_seq(r@) == strip_generated(model_of_seq(rules@), proxy@, direct@, tun@),
{
    let ghost orig = rules@;
    let ghost morig = model_of_seq(rules@);
    proof {
        lemma_model_of_seq(orig);
    }
    let mut rest = rules;
    let mut out: Vec<Value> = Vec::new();
    proof {
        assert(rest@ =~= orig.subrange(orig.len() - rest@.len(), orig.len() as int));
        assert(orig.subrange(0, 0) =~= Seq::<Value>::empty());
    }
    while rest.len() > 0
        invariant
            rest@.len() <= orig.len(),
            morig == model_of_seq(orig),
            morig.len() == orig.len(),
            forall|j: int| 0 <= j < orig.len() ==> #[trigger] morig[j] == model_of(orig[j]),
            rest@ =~= orig.subrange(orig.len() - rest@.len(), orig.len() as int),
            model_of_seq(out@) == keep(
                morig.subrange(0, orig.len() - rest@.len()),
                p_not_generated(proxy@, direct@, tun@),
            ),
        decreases rest@.len(),
    {
        let ghost pre = rest@;
        let ghost done: int = orig.len() - pre.len();
        let rule = rest.remove(0);
        proof {
            assert(rule == orig[done]);
            assert(rest@ =~= orig.subrange(done + 1, orig.len() as int));
            assert(morig.subrange(0, done + 1) =~= morig.subrange(0, done).push(morig[done]));
            lemma_keep_push(
                morig.subrange(0, done),
                p_not_generated(proxy@, direct@, tun@),
                morig[done],
            );
            assert(p_not_generated(proxy@, direct@, tun@)(morig[done]) == !is_generated(
                morig[done],
                proxy@,
                direct@,
                tun@,
            ));
        }
        if !is_generated_exec(&rule, proxy, direct, tun) {
            let ghost before = out@;
            out.push(rule);
            proof {
                crate::value::lemma_model_of_seq_push(before, orig[done]);
            }
        }
    }
    proof {
        assert(morig.subrange(0, morig.len() as int) =~= morig);
    }
    out
}

/// Builds the fresh steering rules, in precedence order.
fn build_block_exec(policy: &Policy, platform: Platform, tun: &str) -> (r: Vec<Value>)
    ensures
        model_of_seq(r@) == build_block(policy@, platform, tun@),
{
    let (b_names, b_paths) = normalize_tokens(&policy.bypass_apps, platform);
    let (p_names, p_paths) = normalize_tokens(&policy.proxy_apps, platform);
    let b_dom = clean_list_exec(&policy.bypass_domains);
    let p_dom = clean_list_exec(&policy.proxy_domains);
    let ghost p = policy@;
    let ghost tv = tun@;
    let ghost part1 = maybe_rule(
        tv,
        "process_path"@,
        collect_paths(p.bypass_apps, platform),
        p.direct_outbound,
    );
    let ghost part2 = maybe_rule(
        tv,
        "process_name"@,
        collect_names(p.bypass_apps, platform),
        p.direct_outbound,
    );
    let ghost part3 = maybe_rule(
        tv,
        "domain_suffix"@,
        clean_list(p.bypass_domains),
        p.direct_outbound,
    );
    let ghost part4 = maybe_rule(
        tv,
        "process_path"@,
        collect_paths(p.proxy_apps, platform),
        p.proxy_outbound,
    );
    let ghost part5 = maybe_rule(
        tv,
        "process_name"@,
        collect_names(p.proxy_apps, platform),
        p.proxy_outbound,
    );
    let ghost part6 = maybe_rule(
        tv,
        "domain_suffix"@,
        clean_list(p.proxy_domains),
        p.proxy_outbound,
    );
    let mut out: Vec<Value> = Vec::new();
    if b_paths.len() > 0 {
        let ghost before = out@;
        out.push(
            make_steering_rule(tun, "process_path", b_paths, policy.direct_outbound.as_str()),
        );
        proof {
            crate::value::lemma_model_of_seq_push(before, out@.last());
        }
    }
    proof {
        assert(model_of_seq(out@) =~= part1);
    }
    if b_names.len() > 0 {
        let ghost before = out@;
        out.push(
            make_steering_rule(tun, "process_name", b_names, policy.direct_outbound.as_str()),
        );
        proof {
            crate::value::lemma_model_of_seq_push(before, out@.last());
        }
    }
    proof {
        assert(model_of_seq(out@) =~= part1 + part2);
    }
    if b_dom.len() > 0 {
        let ghost before = out@;
        out.push(
            make_steering_rule(tun, "domain_suffix", b_dom, policy.direct_outbound.as_str()),
        );
        proof {
            crate::value::lemma_model_of_seq_push(before, out@.last());
        }
    }
    proof {
        assert(model_of_seq(out@) =~= part1 + part2 + part3);
    }
    if p_paths.len() > 0 {
        let ghost before = out@;
        out.push(
            make_steering_rule(tun, "process_path", p_paths, policy.proxy_outbound.as_str()),
        );
        proof {
            crate::value::lemma_model_of_seq_push(before, out@.last());
        }
    }
    proof {
        assert(model_of_seq(out@) =~= part1 + part2 + part3 + part4);
    }
    if p_names.len() > 0 {
        let ghost before = out@;
        out.push(
            make_steering_rule(tun, "process_name", p_names, policy.proxy_outbound.as_str()),
        );
        proof {
            crate::value::lemma_model_of_seq_push(before, out@.last());
        }
    }
    proof {
        assert(model_of_seq(out@) =~= part1 + part2 + part3 + part4 + part5);
    }
    if p_dom.len() > 0 {
        let ghost before = out@;
        out.push(
            make_steering_rule(tun, "domain_suffix", p_dom, policy.proxy_outbound.as_str()),
        );
        proof {
            crate::value::lemma_model_of_seq_push(before, out@.last());
        }
    }
    proof {
        assert(model_of_seq(out@) =~= part1 + part2 + part3 + part4 + part5 + part6);
    }
    out
}

/// The rule-list transformation of the split pass.
fn split_rules(rules: Vec<Value>, policy: &Policy, platform: Platform, tun: &str) -> (r: Vec<
    Value,
>)
    ensures
        model_of_seq(r@) == split_rules_model(model_of_seq(rules@), policy@, platform, tun@),
{
    let rules1 = ensure_sniff_exec(rules, tun);
    let rules2 = ensure_dns_exec(rules1);
    let rules3 = strip_catch_all_exec(rules2, policy.proxy_outbound.as_str(), tun);
    let rules4 = strip_generated_exec(
        rules3,
        policy.proxy_outbound.as_str(),
        policy.direct_outbound.as_str(),
        tun,
    );
    let block = build_block_exec(policy, platform, tun);
    let pos = find_insert_pos(&rules4);
    insert_values_at(rules4, pos, block)
}

/// The route-object transformation of the split pass.
fn route_transform(
    rf: Vec<(String, Value)>,
    policy: &Policy,
    platform: Platform,
    tun: &str,
) -> (r: Vec<(String, Value)>)
    ensures
        model_of_fields(r@) == route_transform_model(
            model_of_fields(rf@),
            policy@,
            platform,
            tun@,
        ),
{
    let rf1 = obj_set_value(rf, "final", Value::Str(policy.direct_outbound.clone()));
    let want_find = policy.bypass_apps.len() > 0 || policy.proxy_apps.len() > 0;
    let rf2 = if want_find {
        match obj_get_index(&rf1, "find_process") {
            None => {
                proof {
                    lemma_model_of_fields(rf1@);
                    assert(forall|j: int|
                        0 <= j < rf1@.len() ==> (#[trigger] model_of_fields(rf1@)[j]).0
                            != "find_process"@);
                    lemma_field_get_absent(model_of_fields(rf1@), "find_process"@);
                }
                obj_set_value(rf1, "find_process", Value::Bool(true))
            },
            Some(k) => {
                proof {
                    lemma_model_of_fields(rf1@);
                    assert(forall|j: int|
                        0 <= j < k ==> (#[trigger] model_of_fields(rf1@)[j]).0
                            != "find_process"@);
                    lemma_field_get_found(model_of_fields(rf1@), "find_process"@, k as int);
                }
                rf1
            },
        }
    } else {
        rf1
    };
    let ghost rf2m = model_of_fields(rf2@);
    let mut rf2 = rf2;
    match obj_get_index(&rf2, "rules") {
        Some(i) => {
            proof {
                lemma_model_of_fields(rf2@);
                assert(forall|j: int|
                    0 <= j < i ==> (#[trigger] model_of_fields(rf2@)[j]).0 != "rules"@);
                lemma_field_get_found(model_of_fields(rf2@), "rules"@, i as int);
            }
            let ghost pre = rf2@;
            let pair = rf2.remove(i);
            let items = match pair.1 {
                Value::Arr(v) => v,
                _ => Vec::new(),
            };
            let ghost rules0 = match field_get(rf2m, "rules"@) {
                Some(ValueModel::Arr(x)) => x,
                _ => Seq::<ValueModel>::empty(),
            };
            proof {
                assert(model_of_seq(items@) == rules0);
            }
            let new_rules = split_rules(items, policy, platform, tun);
            rf2.insert(i, (pair.0, Value::Arr(new_rules)));
            proof {
                lemma_model_of_fields(pre);
                lemma_model_of_fields(rf2@);
                assert(rf2@ =~= pre.update(i as int, (pre[i as int].0, Value::Arr(new_rules))));
                lemma_field_set_found(
                    rf2m,
                    "rules"@,
                    ValueModel::Arr(split_rules_model(rules0, policy@, platform, tun@)),
                    i as int,
                );
                assert(model_of_fields(rf2@) =~= field_set(
                    rf2m,
                    "rules"@,
                    ValueModel::Arr(split_rules_model(rules0, policy@, platform, tun@)),
                ));
            }
            rf2
        },
        None => {
            proof {
                lemma_model_of_fields(rf2@);
                assert(forall|j: int|
                    0 <= j < rf2@.len() ==> (#[trigger] model_of_fields(rf2@)[j]).0
                        != "rules"@);
                lemma_field_get_absent(model_of_fields(rf2@), "rules"@);
            }
            let new_rules = split_rules(Vec::new(), policy, platform, tun);
            proof {
                assert(model_of_seq(Seq::<Value>::empty()) =~= Seq::<ValueModel>::empty());
            }
            let ghost pre = rf2@;
            rf2.push((String::from_str("rules"), Value::Arr(new_rules)));
            proof {
                crate::value::lemma_model_of_fields_push(pre, rf2@.last());
                lemma_field_set_absent(
                    rf2m,
                    "rules"@,
                    ValueModel::Arr(
                        split_rules_model(
                            Seq::<ValueModel>::empty(),
                            policy@,
                            platform,
                            tun@,
                        ),
                    ),
                );
            }
            rf2
        },
    }
}

/// The split-routing pass.
pub fn split_pass(doc: Value, policy: &Policy, platform: Platform) -> (r: Value)
    ensures
        r@ == split_pass_model(doc@, policy@, platform),
{
    if !policy.enabled {
        return doc;
    }
    let tun = find_tun_tag(&doc);
    let ghost dm = doc@;
    match doc {
        Value::Obj(dfields) => {
            let ghost forig = dfields@;
            let mut dfields = dfields;
            match obj_get_index(&dfields, "route") {
                Some(i) => {
                    proof {
                        lemma_model_of_fields(forig);
                        assert(forall|j: int|
                            0 <= j < i ==> (#[trigger] model_of_fields(forig)[j]).0
                                != "route"@);
                        lemma_field_get_found(model_of_fields(forig), "route"@, i as int);
                    }
                    let pair = dfields.remove(i);
                    let rfields = match pair.1 {
                        Value::Obj(x) => x,
                        _ => Vec::new(),
                    };
                    let ghost rf = match field_get(model_of_fields(forig), "route"@) {
                        Some(ValueModel::Obj(x)) => x,
                        _ => Seq::<(Seq<char>, ValueModel)>::empty(),
                    };
                    proof {
                        assert(model_of_fields(rfields@) == rf);
                    }
                    let new_rf = route_transform(rfields, policy, platform, tun.as_str());
                    dfields.insert(i, (pair.0, Value::Obj(new_rf)));
                    proof {
                        lemma_model_of_fields(dfields@);
                        assert(dfields@ =~= forig.update(
                            i as int,
                            (forig[i as int].0, Value::Obj(new_rf)),
                        ));
                        lemma_field_set_found(
                            model_of_fields(forig),
                            "route"@,
                            ValueModel::Obj(
                                route_transform_model(rf, policy@, platform, tun@),
                            ),
                            i as int,
                        );
                        assert(model_of_fields(dfields@) =~= field_set(
                            model_of_fields(forig),
                            "route"@,
                            ValueModel::Obj(
                                route_transform_model(rf, policy@, platform, tun@),
                            ),
                        ));
                    }
                    Value::Obj(dfields)
                },
                None => {
                    proof {
                        lemma_model_of_fields(forig);
                        assert(forall|j: int|
                            0 <= j < forig.len() ==> (#[trigger] model_of_fields(forig)[j]).0
                                != "route"@);
                        lemma_field_get_absent(model_of_fields(forig), "route"@);
                    }
                    let new_rf = route_transform(Vec::new(), policy, platform, tun.as_str());
                    proof {
                        assert(model_of_fields(Seq::<(String, Value)>::empty()) =~= Seq::<
                            (Seq<char>, ValueModel),
                        >::empty());
                    }
                    let ghost pre = dfields@;
                    dfields.push((String::from_str("route"), Value::Obj(new_rf)));
                    proof {
                        crate::value::lemma_model_of_fields_push(pre, dfields@.last());
                        lemma_field_set_absent(
                            model_of_fields(forig),
                            "route"@,
                            ValueModel::Obj(
                                route_transform_model(
                                    Seq::<(Seq<char>, ValueModel)>::empty(),
                                    policy@,
                                    platform,
                                    tun@,
                                ),
                            ),
                        );
                    }
                    Value::Obj(dfields)
                },
            }
        },
        other => other,
    }
}

} // verus!
