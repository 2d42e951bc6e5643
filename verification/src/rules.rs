//! The shapes of route rules. An action rule carries `action` (`sniff`
//! or `hijack-dns`); a steering rule carries match conditions, one
//! `inbound` selector and one `outbound` tag. Generated steering rules
//! are recognized by their sole tunnel inbound, a policy-known outbound
//! tag, and at least one recognized match condition, so they can be
//! removed and regenerated without touching user-authored rules.

use vstd::prelude::*;
use vstd::string::StringExecFns;
use crate::strings::str_eq;
use crate::strings::views_of;
use crate::value::model_of;
use crate::value::model_of_seq;
use crate::value::model_of_fields;
use crate::value::lemma_model_of_seq;
use crate::value::lemma_model_of_fields;
use crate::value::value_get;
use crate::value::value_get_model;
use crate::value::Value;
use crate::value::ValueModel;

verus! {

/// Whether the node is the string `s`.
pub fn is_str_value(v: &Value, s: &str) -> (r: bool)
    ensures
        r == (v@ == ValueModel::Str(s@)),
{
    match v {
        Value::Str(x) => str_eq(x.as_str(), s),
        _ => false,
    }
}

/// Whether the rule's `action` is the string `name`.
pub open spec fn action_is(m: ValueModel, name: Seq<char>) -> bool {
    value_get_model(m, "action"@) == Some(ValueModel::Str(name))
}

pub fn action_is_exec(r: &Value, name: &str) -> (b: bool)
    ensures
        b == action_is(r@, name@),
{
    match value_get(r, "action") {
        Some(x) => is_str_value(x, name),
        None => false,
    }
}

/// An action rule: it sniffs or intercepts DNS.
pub open spec fn is_action_rule(m: ValueModel) -> bool {
    action_is(m, "sniff"@) || action_is(m, "hijack-dns"@)
}

pub fn is_action_rule_exec(r: &Value) -> (b: bool)
    ensures
        b == is_action_rule(r@),
{
    action_is_exec(r, "sniff") || action_is_exec(r, "hijack-dns")
}

/// Whether the rule has the field `key` at all.
pub open spec fn has_key(m: ValueModel, key: Seq<char>) -> bool {
    value_get_model(m, key) is Some
}

pub fn has_key_exec(r: &Value, key: &str) -> (b: bool)
    ensures
        b == has_key(r@, key@),
{
    match value_get(r, key) {
        Some(_) => true,
        None => false,
    }
}

/// Whether the rule's sole inbound selector is `tag`.
pub open spec fn sole_inbound(m: ValueModel, tag: Seq<char>) -> bool {
    value_get_model(m, "inbound"@) == Some(
        ValueModel::Arr(seq![ValueModel::Str(tag)]),
    )
}

pub fn sole_inbound_exec(r: &Value, tag: &str) -> (b: bool)
    ensures
        b == sole_inbound(r@, tag@),
{
    match value_get(r, "inbound") {
        Some(x) => match x {
            Value::Arr(items) => {
                proof {
                    lemma_model_of_seq(items@);
                }
                if items.len() == 1 {
                    let inner = is_str_value(&items[0], tag);
                    proof {
                        assert(model_of_seq(items@)[0] == model_of(items@[0]));
                        if inner {
                            assert(model_of_seq(items@) =~= seq![
                                ValueModel::Str(tag@),
                            ]);
                        }
                    }
                    inner
                } else {
                    false
                }
            },
            _ => false,
        },
        None => false,
    }
}

/// Whether the rule's `outbound` tag is `tag`.
pub open spec fn outbound_is(m: ValueModel, tag: Seq<char>) -> bool {
    value_get_model(m, "outbound"@) == Some(ValueModel::Str(tag))
}

pub fn outbound_is_exec(r: &Value, tag: &str) -> (b: bool)
    ensures
        b == outbound_is(r@, tag@),
{
    match value_get(r, "outbound") {
        Some(x) => is_str_value(x, tag),
        None => false,
    }
}

/// Whether the rule carries any of the seven recognized match conditions.
pub open spec fn any_condition(m: ValueModel) -> bool {
    has_key(m, "process_name"@) || has_key(m, "process_path"@) || has_key(
        m,
        "domain_suffix"@,
    ) || has_key(m, "ip_cidr"@) || has_key(m, "port"@) || has_key(m, "network"@)
        || has_key(m, "protocol"@)
}

pub fn any_condition_exec(r: &Value) -> (b: bool)
    ensures
        b == any_condition(r@),
{
    has_key_exec(r, "process_name") || has_key_exec(r, "process_path") || has_key_exec(
        r,
        "domain_suffix",
    ) || has_key_exec(r, "ip_cidr") || has_key_exec(r, "port") || has_key_exec(
        r,
        "network",
    ) || has_key_exec(r, "protocol")
}

/// Whether the rule carries a condition the split pass generates.
pub open spec fn split_condition(m: ValueModel) -> bool {
    has_key(m, "process_name"@) || has_key(m, "process_path"@) || has_key(
        m,
        "domain_suffix"@,
    )
}

pub fn split_condition_exec(r: &Value) -> (b: bool)
    ensures
        b == split_condition(r@),
{
    has_key_exec(r, "process_name") || has_key_exec(r, "process_path") || has_key_exec(
        r,
        "domain_suffix",
    )
}

/// The unconditional catch-all: a steering rule (so no action) whose
/// sole inbound is the tunnel inbound, whose outbound is the proxy
/// outbound, and which carries none of the seven match conditions. Left
/// in place it would steer everything to the proxy regardless of the
/// split policy.
pub open spec fn is_catch_all(m: ValueModel, proxy: Seq<char>, tun: Seq<char>) -> bool {
    sole_inbound(m, tun) && outbound_is(m, proxy) && !any_condition(m) && !has_key(
        m,
        "action"@,
    )
}

pub fn is_catch_all_exec(r: &Value, proxy: &str, tun: &str) -> (b: bool)
    ensures
        b == is_catch_all(r@, proxy@, tun@),
{
    sole_inbound_exec(r, tun) && outbound_is_exec(r, proxy) && !any_condition_exec(r)
        && !has_key_exec(r, "action")
}

/// A rule of a previous split generation: a steering rule whose sole
/// inbound is the tunnel inbound, whose outbound is either policy
/// outbound tag, and which carries a generated condition.
pub open spec fn is_generated(
    m: ValueModel,
    proxy: Seq<char>,
    direct: Seq<char>,
    tun: Seq<char>,
) -> bool {
    sole_inbound(m, tun) && (outbound_is(m, proxy) || outbound_is(m, direct))
        && split_condition(m) && !has_key(m, "action"@)
}

pub fn is_generated_exec(r: &Value, proxy: &str, direct: &str, tun: &str) -> (b: bool)
    ensures
        b == is_generated(r@, proxy@, direct@, tun@),
{
    sole_inbound_exec(r, tun) && (outbound_is_exec(r, proxy) || outbound_is_exec(
        r,
        direct,
    )) && split_condition_exec(r) && !has_key_exec(r, "action")
}

/// A previous generation's SOCKS steering rule: sole SOCKS inbound, an
/// outbound, no action, and no extra condition.
pub open spec fn is_simple_socks(m: ValueModel, socks_tag: Seq<char>) -> bool {
    sole_inbound(m, socks_tag) && has_key(m, "outbound"@) && !has_key(m, "action"@)
        && !any_condition(m)
}

pub fn is_simple_socks_exec(r: &Value, socks_tag: &str) -> (b: bool)
    ensures
        b == is_simple_socks(r@, socks_tag@),
{
    sole_inbound_exec(r, socks_tag) && has_key_exec(r, "outbound") && !has_key_exec(
        r,
        "action",
    ) && !any_condition_exec(r)
}

/// An inbound of the tunnel-device kind.
pub open spec fn is_tun_inbound(m: ValueModel) -> bool {
    value_get_model(m, "type"@) == Some(ValueModel::Str("tun"@))
}

pub fn is_tun_inbound_exec(r: &Value) -> (b: bool)
    ensures
        b == is_tun_inbound(r@),
{
    match value_get(r, "type") {
        Some(x) => is_str_value(x, "tun"),
        None => false,
    }
}

/// The tag of the first tunnel inbound, or the conventional `tun-in`
/// when there is none or it carries no string tag.
pub open spec fn tun_tag_of_inbounds(items: Seq<ValueModel>) -> Seq<char>
    decreases items.len(),
{
    if items.len() == 0 {
        "tun-in"@
    } else if is_tun_inbound(items[0]) {
        match value_get_model(items[0], "tag"@) {
            Some(ValueModel::Str(s)) => s,
            _ => "tun-in"@,
        }
    } else {
        tun_tag_of_inbounds(items.subrange(1, items.len() as int))
    }
}

/// The tunnel inbound tag the passes scope their rules to.
pub open spec fn tun_tag_model(doc: ValueModel) -> Seq<char> {
    match value_get_model(doc, "inbounds"@) {
        Some(ValueModel::Arr(items)) => tun_tag_of_inbounds(items),
        _ => "tun-in"@,
    }
}

pub fn find_tun_tag(doc: &Value) -> (r: String)
    ensures
        r@ == tun_tag_model(doc@),
{
    match value_get(doc, "inbounds") {
        Some(x) => match x {
            Value::Arr(items) => {
                proof {
                    lemma_model_of_seq(items@);
                }
                let ghost ms = model_of_seq(items@);
                let mut i: usize = 0;
                proof {
                    assert(ms =~= ms.subrange(0, ms.len() as int));
                    assert(x@ == ValueModel::Arr(ms));
                    assert(tun_tag_model(doc@) == tun_tag_of_inbounds(ms));
                }
                while i < items.len()
                    invariant
                        i <= items@.len(),
                        ms == model_of_seq(items@),
                        ms.len() == items@.len(),
                        forall|j: int|
                            0 <= j < ms.len() ==> #[trigger] ms[j] == model_of(
                                items@[j],
                            ),
                        tun_tag_of_inbounds(ms) == tun_tag_of_inbounds(
                            ms.subrange(i as int, ms.len() as int),
                        ),
                        tun_tag_model(doc@) == tun_tag_of_inbounds(ms),
                    decreases items@.len() - i,
                {
                    let ghost cur = ms.subrange(i as int, ms.len() as int);
                    proof {
                        assert(cur[0] == ms[i as int]);
                        assert(cur.subrange(1, cur.len() as int) =~= ms.subrange(
                            i + 1,
                            ms.len() as int,
                        ));
                    }
                    if is_tun_inbound_exec(&items[i]) {
                        proof {
                            assert(cur[0] == model_of(items@[i as int]));
                            assert(is_tun_inbound(cur[0]));
                        }
                        match value_get(&items[i], "tag") {
                            Some(t) => match t {
                                Value::Str(s) => {
                                    proof {
                                        assert(value_get_model(cur[0], "tag"@) == Some(
                                            ValueModel::Str(s@),
                                        ));
                                        assert(tun_tag_of_inbounds(cur) == s@);
                                    }
                                    return s.clone();
                                },
                                _ => {
                                    proof {
                                        assert(value_get_model(cur[0], "tag"@) == Some(
                                            t@,
                                        ));
                                        assert(!(t@ is Str));
                                        assert(tun_tag_of_inbounds(cur) == "tun-in"@);
                                    }
                                    return String::from_str("tun-in");
                                },
                            },
                            None => {
                                proof {
                                    assert(value_get_model(cur[0], "tag"@) is None);
                                    assert(tun_tag_of_inbounds(cur) == "tun-in"@);
                                }
                                return String::from_str("tun-in");
                            },
                        }
                    }
                    i = i + 1;
                }
                proof {
                    assert(ms.subrange(ms.len() as int, ms.len() as int) =~= Seq::<
                        ValueModel,
                    >::empty());
                }
                String::from_str("tun-in")
            },
            _ => String::from_str("tun-in"),
        },
        None => String::from_str("tun-in"),
    }
}

/// An array holding the single string `tag`.
pub open spec fn tag_arr_model(tag: Seq<char>) -> ValueModel {
    ValueModel::Arr(seq![ValueModel::Str(tag)])
}

/// An array of strings.
pub open spec fn str_arr_model(xs: Seq<Seq<char>>) -> ValueModel {
    ValueModel::Arr(xs.map_values(|s: Seq<char>| ValueModel::Str(s)))
}

pub fn make_tag_array(tag: &str) -> (r: Value)
    ensures
        r@ == tag_arr_model(tag@),
{
    let mut items: Vec<Value> = Vec::new();
    items.push(Value::Str(tag.to_owned()));
    let ghost iv = items@;
    let r = Value::Arr(items);
    proof {
        lemma_model_of_seq(iv);
        assert(model_of_seq(iv) =~= seq![ValueModel::Str(tag@)]);
    }
    r
}

pub fn make_str_array(items: Vec<String>) -> (r: Value)
    ensures
        r@ == str_arr_model(views_of(items@)),
{
    let ghost all = views_of(items@);
    let mut rest = items;
    let mut out: Vec<Value> = Vec::new();
    proof {
        assert(views_of(rest@) =~= all.subrange(all.len() - rest@.len(), all.len() as int));
    }
    while rest.len() > 0
        invariant
            rest@.len() <= all.len(),
            views_of(rest@) =~= all.subrange(all.len() - rest@.len(), all.len() as int),
            out@.len() == all.len() - rest@.len(),
            forall|j: int|
                0 <= j < out@.len() ==> model_of(#[trigger] out@[j]) == ValueModel::Str(
                    all[j],
                ),
        decreases rest@.len(),
    {
        let ghost pre = rest@;
        let ghost done: int = all.len() - pre.len();
        let s = rest.remove(0);
        proof {
            assert(views_of(pre)[0] == pre[0]@);
            assert(s@ == all[done]);
            assert(rest@ =~= pre.subrange(1, pre.len() as int));
            assert forall|j: int| 0 <= j < rest@.len() implies #[trigger] views_of(rest@)[j]
                == all[done + 1 + j] by {
                assert(rest@[j] == pre[j + 1]);
                assert(views_of(pre)[j + 1] == pre[j + 1]@);
            }
            assert(views_of(rest@) =~= all.subrange(done + 1, all.len() as int));
        }
        out.push(Value::Str(s));
    }
    let ghost ov = out@;
    let r = Value::Arr(out);
    proof {
        lemma_model_of_seq(ov);
        assert(model_of_seq(ov) =~= all.map_values(|s: Seq<char>| ValueModel::Str(s)));
    }
    r
}

/// The canonical sniff action rule, scoped to the tunnel inbound.
pub open spec fn sniff_rule_model(tun: Seq<char>) -> ValueModel {
    ValueModel::Obj(
        seq![
            ("inbound"@, tag_arr_model(tun)),
            ("action"@, ValueModel::Str("sniff"@)),
        ],
    )
}

pub fn make_sniff_rule(tun: &str) -> (r: Value)
    ensures
        r@ == sniff_rule_model(tun@),
{
    let inbound = make_tag_array(tun);
    let mut fields: Vec<(String, Value)> = Vec::new();
    fields.push((String::from_str("inbound"), inbound));
    fields.push((String::from_str("action"), Value::Str(String::from_str("sniff"))));
    let ghost fv = fields@;
    let r = Value::Obj(fields);
    proof {
        lemma_model_of_fields(fv);
        assert(model_of_fields(fv) =~= seq![
            ("inbound"@, tag_arr_model(tun@)),
            ("action"@, ValueModel::Str("sniff"@)),
        ]);
    }
    r
}

/// The canonical DNS interception rule, scoped to the DNS protocol.
pub open spec fn dns_rule_model() -> ValueModel {
    ValueModel::Obj(
        seq![
            ("protocol"@, ValueModel::Str("dns"@)),
            ("action"@, ValueModel::Str("hijack-dns"@)),
        ],
    )
}

pub fn make_dns_rule() -> (r: Value)
    ensures
        r@ == dns_rule_model(),
{
    let mut fields: Vec<(String, Value)> = Vec::new();
    fields.push((String::from_str("protocol"), Value::Str(String::from_str("dns"))));
    fields.push((String::from_str("action"), Value::Str(String::from_str("hijack-dns"))));
    let ghost fv = fields@;
    let r = Value::Obj(fields);
    proof {
        lemma_model_of_fields(fv);
        assert(model_of_fields(fv) =~= seq![
            ("protocol"@, ValueModel::Str("dns"@)),
            ("action"@, ValueModel::Str("hijack-dns"@)),
        ]);
    }
    r
}

/// A generated steering rule: sole tunnel inbound, one condition list,
/// one outbound tag.
pub open spec fn steering_rule_model(
    tun: Seq<char>,
    cond_key: Seq<char>,
    toks: Seq<Seq<char>>,
    outbound: Seq<char>,
) -> ValueModel {
    ValueModel::Obj(
        seq![
            ("inbound"@, tag_arr_model(tun)),
            (cond_key, str_arr_model(toks)),
            ("outbound"@, ValueModel::Str(outbound)),
        ],
    )
}

pub fn make_steering_rule(tun: &str, cond_key: &str, toks: Vec<String>, outbound: &str) -> (r:
    Value)
    ensures
        r@ == steering_rule_model(tun@, cond_key@, views_of(toks@), outbound@),
{
    let ghost tv = views_of(toks@);
    let inbound = make_tag_array(tun);
    let cond = make_str_array(toks);
    let mut fields: Vec<(String, Value)> = Vec::new();
    fields.push((String::from_str("inbound"), inbound));
    fields.push((cond_key.to_owned(), cond));
    fields.push((String::from_str("outbound"), Value::Str(outbound.to_owned())));
    let ghost fv = fields@;
    let r = Value::Obj(fields);
    proof {
        lemma_model_of_fields(fv);
        assert(model_of_fields(fv) =~= seq![
            ("inbound"@, tag_arr_model(tun@)),
            (cond_key@, str_arr_model(tv)),
            ("outbound"@, ValueModel::Str(outbound@)),
        ]);
    }
    r
}

/// A previous generation's SOCKS steering rule as this engine writes it.
pub open spec fn socks_rule_model(socks_tag: Seq<char>, outbound: Seq<char>) -> ValueModel {
    ValueModel::Obj(
        seq![
            ("inbound"@, tag_arr_model(socks_tag)),
            ("outbound"@, ValueModel::Str(outbound)),
        ],
    )
}

pub fn make_socks_rule(socks_tag: &str, outbound: &str) -> (r: Value)
    ensures
        r@ == socks_rule_model(socks_tag@, outbound@),
{
    let inbound = make_tag_array(socks_tag);
    let mut fields: Vec<(String, Value)> = Vec::new();
    fields.push((String::from_str("inbound"), inbound));
    fields.push((String::from_str("outbound"), Value::Str(outbound.to_owned())));
    let ghost fv = fields@;
    let r = Value::Obj(fields);
    proof {
        lemma_model_of_fields(fv);
        assert(model_of_fields(fv) =~= seq![
            ("inbound"@, tag_arr_model(socks_tag@)),
            ("outbound"@, ValueModel::Str(outbound@)),
        ]);
    }
    r
}

/// The legacy per-process rule: the raw process list, unnormalized, and
/// the proxy outbound.
pub open spec fn legacy_rule_model(procs: Seq<Seq<char>>, outbound: Seq<char>) -> ValueModel {
    ValueModel::Obj(
        seq![
            ("process_name"@, str_arr_model(procs)),
            ("outbound"@, ValueModel::Str(outbound)),
        ],
    )
}

pub fn make_legacy_rule(procs: Vec<String>, outbound: &str) -> (r: Value)
    ensures
        r@ == legacy_rule_model(views_of(procs@), outbound@),
{
    let ghost pv = views_of(procs@);
    let cond = make_str_array(procs);
    let mut fields: Vec<(String, Value)> = Vec::new();
    fields.push((String::from_str("process_name"), cond));
    fields.push((String::from_str("outbound"), Value::Str(outbound.to_owned())));
    let ghost fv = fields@;
    let r = Value::Obj(fields);
    proof {
        lemma_model_of_fields(fv);
        assert(model_of_fields(fv) =~= seq![
            ("process_name"@, str_arr_model(pv)),
            ("outbound"@, ValueModel::Str(outbound@)),
        ]);
    }
    r
}

} // verus!
