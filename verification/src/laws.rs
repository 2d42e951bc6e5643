//! The laws of the engine: each pass is idempotent, repeated split
//! passes keep the rule count of a single one, bypass rules precede
//! proxy rules in the generated block, and enabling then disabling the
//! SOCKS pass is the same as disabling it on the untouched document.

use vstd::prelude::*;
use crate::policy::Platform;
use crate::policy::PolicyModel;
use crate::seq_util::first_where;
use crate::seq_util::insert_block;
use crate::seq_util::keep;
use crate::seq_util::last_where;
use crate::seq_util::lemma_first_where_props;
use crate::seq_util::lemma_insert_block_elem;
use crate::seq_util::lemma_keep_add;
use crate::seq_util::lemma_keep_all;
use crate::seq_util::lemma_keep_contains;
use crate::seq_util::lemma_keep_none;
use crate::seq_util::lemma_keep_pred;
use crate::seq_util::lemma_keep_preserves_all;
use crate::seq_util::lemma_last_where;
use crate::split::build_block;
use crate::split::ensure_dns;
use crate::split::ensure_sniff;
use crate::split::maybe_rule;
use crate::split::p_action_named;
use crate::split::p_is_action;
use crate::split::p_not_catch_all;
use crate::split::p_not_generated;
use crate::split::route_transform_model;
use crate::split::split_pass_model;
use crate::split::split_rules_model;
use crate::split::strip_catch_all;
use crate::split::strip_generated;
use crate::rules::tun_tag_model;
use crate::rules::is_tun_inbound;
use crate::patch::ensure_auto_detect_model;
use crate::patch::map_inbounds_model;
use crate::patch::patch_inbound;
use crate::patch::platform_patch_model;
use crate::seq_util::lemma_keep_idem;
use crate::value::field_set;
use crate::value::lemma_field_get_remove_other;
use crate::value::lemma_field_get_set_other;
use crate::value::lemma_field_get_set_same;
use crate::value::lemma_field_set_noop;
use crate::value::lemma_field_set_set;
use crate::value::field_remove;
use crate::value::p_key_not;
use crate::value::value_set_model;
use crate::value::lemma_field_set_restore;
use crate::value::lemma_field_set_restore5;
use crate::value::lemma_keep_front;
use crate::socks::add_socks_inbound_model;
use crate::socks::add_socks_rule_model;
use crate::socks::is_socks_inbound;
use crate::socks::p_not_simple_socks;
use crate::socks::p_not_socks_inbound;
use crate::socks::socks_inbound_model;
use crate::socks::socks_outbound;
use crate::socks::socks_pass_model;
use crate::socks::strip_socks_inbounds_model;
use crate::socks::strip_socks_rules_model;
use crate::seq_util::lemma_keep_push;
use crate::tokens::clean_list;
use crate::tokens::collect_names;
use crate::tokens::collect_paths;
use crate::rules::action_is;
use crate::rules::any_condition;
use crate::rules::dns_rule_model;
use crate::rules::has_key;
use crate::rules::is_action_rule;
use crate::rules::is_catch_all;
use crate::rules::is_generated;
use crate::rules::is_simple_socks;
use crate::rules::outbound_is;
use crate::rules::sniff_rule_model;
use crate::rules::sole_inbound;
use crate::rules::socks_rule_model;
use crate::rules::steering_rule_model;
use crate::rules::split_condition;
use crate::rules::tag_arr_model;
use crate::value::field_get;
use crate::value::value_get_model;
use crate::value::ValueModel;

verus! {

broadcast use vstd::string::group_string_axioms;

/// The lengths, and where needed the characters, of the field keys the
/// passes read, from which their pairwise distinctness follows.
pub proof fn lemma_key_facts()
    ensures
        "inbound"@.len() == 7,
        "outbound"@.len() == 8,
        "action"@.len() == 6,
        "process_name"@.len() == 12,
        "process_path"@.len() == 12,
        "domain_suffix"@.len() == 13,
        "ip_cidr"@.len() == 7,
        "port"@.len() == 4,
        "network"@.len() == 7,
        "protocol"@.len() == 8,
        "final"@.len() == 5,
        "rules"@.len() == 5,
        "find_process"@.len() == 12,
        "route"@.len() == 5,
        "inbounds"@.len() == 8,
        "auto_detect_interface"@.len() == 21,
        "type"@.len() == 4,
        "tag"@.len() == 3,
        "interface_name"@.len() == 14,
        "stack"@.len() == 5,
        "listen"@.len() == 6,
        "listen_port"@.len() == 11,
        "sniff"@.len() == 5,
        "hijack-dns"@.len() == 10,
        "tun"@.len() == 3,
        "socks"@.len() == 5,
        "ip_cidr"@ != "inbound"@,
        "network"@ != "inbound"@,
        "protocol"@ != "outbound"@,
        "process_name"@ != "process_path"@,
        "process_name"@ != "find_process"@,
        "process_path"@ != "find_process"@,
        "final"@ != "rules"@,
        "final"@ != "stack"@,
        "rules"@ != "stack"@,
        "route"@ != "final"@,
        "route"@ != "rules"@,
        "route"@ != "stack"@,
        "sniff"@ != "final"@,
        "sniff"@ != "rules"@,
        "sniff"@ != "stack"@,
        "sniff"@ != "route"@,
        "socks"@ != "final"@,
        "socks"@ != "rules"@,
        "socks"@ != "stack"@,
        "socks"@ != "route"@,
        "socks"@ != "sniff"@,
{
    reveal_strlit("inbound");
    reveal_strlit("outbound");
    reveal_strlit("action");
    reveal_strlit("process_name");
    reveal_strlit("process_path");
    reveal_strlit("domain_suffix");
    reveal_strlit("ip_cidr");
    reveal_strlit("port");
    reveal_strlit("network");
    reveal_strlit("protocol");
    reveal_strlit("final");
    reveal_strlit("rules");
    reveal_strlit("find_process");
    reveal_strlit("route");
    reveal_strlit("inbounds");
    reveal_strlit("auto_detect_interface");
    reveal_strlit("type");
    reveal_strlit("tag");
    reveal_strlit("interface_name");
    reveal_strlit("stack");
    reveal_strlit("listen");
    reveal_strlit("listen_port");
    reveal_strlit("sniff");
    reveal_strlit("hijack-dns");
    reveal_strlit("tun");
    reveal_strlit("socks");
    assert("ip_cidr"@[1] == 'p' && "inbound"@[1] == 'n');
    assert("network"@[0] == 'n' && "inbound"@[0] == 'i');
    assert("protocol"@[0] == 'p' && "outbound"@[0] == 'o');
    assert("process_name"@[8] == 'n' && "process_path"@[8] == 'p');
    assert("process_name"@[0] == 'p' && "find_process"@[0] == 'f');
    assert("final"@[0] == 'f' && "rules"@[0] == 'r');
    assert("stack"@[0] == 's');
    assert("route"@[0] == 'r' && "route"@[1] == 'o' && "rules"@[1] == 'u');
    assert("sniff"@[0] == 's' && "sniff"@[1] == 'n');
    assert("socks"@[1] == 'o' && "socks"@[2] == 'c' && "route"@[2] == 'u');
}

/// The canonical sniff rule is an action rule, so neither the catch-all
/// nor a generated rule.
pub proof fn lemma_sniff_rule_props(tun: Seq<char>)
    ensures
        action_is(sniff_rule_model(tun), "sniff"@),
        is_action_rule(sniff_rule_model(tun)),
        has_key(sniff_rule_model(tun), "action"@),
{
    lemma_key_facts();
    let fs = seq![
        ("inbound"@, tag_arr_model(tun)),
        ("action"@, ValueModel::Str("sniff"@)),
    ];
    assert("inbound"@ != "action"@);
    assert(fs[0].0 != "action"@);
    assert(field_get(fs, "action"@) == field_get(fs.subrange(1, 2), "action"@));
    assert(fs.subrange(1, 2)[0] == fs[1]);
    assert(field_get(fs, "action"@) == Some(ValueModel::Str("sniff"@)));
}

/// The canonical DNS rule is an action rule.
pub proof fn lemma_dns_rule_props()
    ensures
        action_is(dns_rule_model(), "hijack-dns"@),
        is_action_rule(dns_rule_model()),
        has_key(dns_rule_model(), "action"@),
{
    lemma_key_facts();
    let fs = seq![
        ("protocol"@, ValueModel::Str("dns"@)),
        ("action"@, ValueModel::Str("hijack-dns"@)),
    ];
    assert(fs[0].0 != "action"@);
    assert(field_get(fs, "action"@) == field_get(fs.subrange(1, 2), "action"@));
    assert(fs.subrange(1, 2)[0] == fs[1]);
    assert(field_get(fs, "action"@) == Some(ValueModel::Str("hijack-dns"@)));
}

/// A fresh steering rule is a generated rule, not an action rule, and
/// not the catch-all.
pub proof fn lemma_steering_rule_props(
    tun: Seq<char>,
    cond_key: Seq<char>,
    toks: Seq<Seq<char>>,
    outbound: Seq<char>,
)
    requires
        cond_key == "process_path"@ || cond_key == "process_name"@ || cond_key
            == "domain_suffix"@,
    ensures
        sole_inbound(steering_rule_model(tun, cond_key, toks, outbound), tun),
        outbound_is(steering_rule_model(tun, cond_key, toks, outbound), outbound),
        split_condition(steering_rule_model(tun, cond_key, toks, outbound)),
        any_condition(steering_rule_model(tun, cond_key, toks, outbound)),
        !has_key(steering_rule_model(tun, cond_key, toks, outbound), "action"@),
        !is_action_rule(steering_rule_model(tun, cond_key, toks, outbound)),
        !is_catch_all(steering_rule_model(tun, cond_key, toks, outbound), tun, tun),
{
    lemma_key_facts();
    let m = steering_rule_model(tun, cond_key, toks, outbound);
    let fs = seq![
        ("inbound"@, tag_arr_model(tun)),
        (cond_key, crate::rules::str_arr_model(toks)),
        ("outbound"@, ValueModel::Str(outbound)),
    ];
    let t1 = fs.subrange(1, 3);
    let t2 = fs.subrange(2, 3);
    assert(t1[0] == fs[1]);
    assert(t1.subrange(1, 2) =~= t2);
    assert(t2[0] == fs[2]);
    assert(t2.subrange(1, 1) =~= Seq::<(Seq<char>, ValueModel)>::empty());
    // sole inbound: the first field.
    assert(field_get(fs, "inbound"@) == Some(tag_arr_model(tun)));
    // outbound: walk past the inbound and the condition.
    assert("outbound"@ != "inbound"@ && "outbound"@ != cond_key);
    assert(field_get(fs, "outbound"@) == field_get(t1, "outbound"@));
    assert(field_get(t1, "outbound"@) == field_get(t2, "outbound"@));
    assert(field_get(fs, "outbound"@) == Some(ValueModel::Str(outbound)));
    // the condition key: the second field.
    assert(cond_key != "inbound"@);
    assert(field_get(fs, cond_key) == field_get(t1, cond_key));
    assert(field_get(fs, cond_key) == Some(crate::rules::str_arr_model(toks)));
    assert(has_key(m, cond_key));
    // no action field.
    assert("action"@ != "inbound"@ && "action"@ != cond_key && "action"@ != "outbound"@);
    assert(field_get(fs, "action"@) == field_get(t1, "action"@));
    assert(field_get(t1, "action"@) == field_get(t2, "action"@));
    assert(field_get(t2, "action"@) == field_get(
        t2.subrange(1, 1),
        "action"@,
    ));
    assert(field_get(Seq::<(Seq<char>, ValueModel)>::empty(), "action"@) is None);
    assert(field_get(fs, "action"@) is None);
}

/// The fresh SOCKS steering rule is the simple SOCKS rule and nothing
/// else the passes look for.
pub proof fn lemma_socks_rule_props(tag: Seq<char>, outbound: Seq<char>)
    ensures
        is_simple_socks(socks_rule_model(tag, outbound), tag),
        !is_action_rule(socks_rule_model(tag, outbound)),
{
    lemma_key_facts();
    let fs = seq![
        ("inbound"@, tag_arr_model(tag)),
        ("outbound"@, ValueModel::Str(outbound)),
    ];
    let t1 = fs.subrange(1, 2);
    assert(t1[0] == fs[1]);
    assert(t1.subrange(1, 1) =~= Seq::<(Seq<char>, ValueModel)>::empty());
    assert(field_get(fs, "inbound"@) == Some(tag_arr_model(tag)));
    assert("outbound"@ != "inbound"@);
    assert(field_get(fs, "outbound"@) == field_get(t1, "outbound"@));
    assert(field_get(fs, "outbound"@) == Some(ValueModel::Str(outbound)));
    assert forall|q: Seq<char>| q != "inbound"@ && q != "outbound"@ implies field_get(
        fs,
        q,
    ) is None by {
        assert(field_get(fs, q) == field_get(t1, q));
        assert(field_get(t1, q) == field_get(t1.subrange(1, 1), q));
        assert(field_get(Seq::<(Seq<char>, ValueModel)>::empty(), q) is None);
    }
    assert(field_get(fs, "action"@) is None);
    assert(field_get(fs, "process_name"@) is None);
    assert(field_get(fs, "process_path"@) is None);
    assert(field_get(fs, "domain_suffix"@) is None);
    assert(field_get(fs, "ip_cidr"@) is None);
    assert(field_get(fs, "port"@) is None);
    assert(field_get(fs, "network"@) is None);
    assert(field_get(fs, "protocol"@) is None);
}

/// Every rule of the fresh block is a generated steering rule: not an
/// action rule and not the catch-all.
pub proof fn lemma_build_block_props(p: PolicyModel, platform: Platform, tun: Seq<char>)
    ensures
        forall|i: int|
            0 <= i < build_block(p, platform, tun).len() ==> is_generated(
                #[trigger] build_block(p, platform, tun)[i],
                p.proxy_outbound,
                p.direct_outbound,
                tun,
            ) && !is_action_rule(build_block(p, platform, tun)[i]) && !is_catch_all(
                build_block(p, platform, tun)[i],
                p.proxy_outbound,
                tun,
            ),
{
    lemma_key_facts();
    let b = build_block(p, platform, tun);
    let part1 = maybe_rule(
        tun,
        "process_path"@,
        collect_paths(p.bypass_apps, platform),
        p.direct_outbound,
    );
    let part2 = maybe_rule(
        tun,
        "process_name"@,
        collect_names(p.bypass_apps, platform),
        p.direct_outbound,
    );
    let part3 = maybe_rule(tun, "domain_suffix"@, clean_list(p.bypass_domains), p.direct_outbound);
    let part4 = maybe_rule(
        tun,
        "process_path"@,
        collect_paths(p.proxy_apps, platform),
        p.proxy_outbound,
    );
    let part5 = maybe_rule(
        tun,
        "process_name"@,
        collect_names(p.proxy_apps, platform),
        p.proxy_outbound,
    );
    let part6 = maybe_rule(tun, "domain_suffix"@, clean_list(p.proxy_domains), p.proxy_outbound);
    lemma_steering_rule_props(
        tun,
        "process_path"@,
        collect_paths(p.bypass_apps, platform),
        p.direct_outbound,
    );
    lemma_steering_rule_props(
        tun,
        "process_name"@,
        collect_names(p.bypass_apps, platform),
        p.direct_outbound,
    );
    lemma_steering_rule_props(
        tun,
        "domain_suffix"@,
        clean_list(p.bypass_domains),
        p.direct_outbound,
    );
    lemma_steering_rule_props(
        tun,
        "process_path"@,
        collect_paths(p.proxy_apps, platform),
        p.proxy_outbound,
    );
    lemma_steering_rule_props(
        tun,
        "process_name"@,
        collect_names(p.proxy_apps, platform),
        p.proxy_outbound,
    );
    lemma_steering_rule_props(
        tun,
        "domain_suffix"@,
        clean_list(p.proxy_domains),
        p.proxy_outbound,
    );
    assert forall|i: int| 0 <= i < b.len() implies is_generated(
        #[trigger] b[i],
        p.proxy_outbound,
        p.direct_outbound,
        tun,
    ) && !is_action_rule(b[i]) && !is_catch_all(b[i], p.proxy_outbound, tun) by {
        let l1 = part1.len();
        let l2 = l1 + part2.len();
        let l3 = l2 + part3.len();
        let l4 = l3 + part4.len();
        let l5 = l4 + part5.len();
        if i < l1 {
            assert(b[i] == part1[i]);
        } else if i < l2 {
            assert(b[i] == part2[i - l1]);
        } else if i < l3 {
            assert(b[i] == part3[i - l2]);
        } else if i < l4 {
            assert(b[i] == part4[i - l3]);
        } else if i < l5 {
            assert(b[i] == part5[i - l4]);
        } else {
            assert(b[i] == part6[i - l5]);
        }
    }
}

/// The split pass leaves a sniff and a DNS action rule in the output,
/// and its output is a fixed point: running the rule transformation
/// again changes nothing.
#[verifier::rlimit(100)]
#[verifier::spinoff_prover]
pub proof fn lemma_split_rules_idem(
    rules: Seq<ValueModel>,
    p: PolicyModel,
    platform: Platform,
    tun: Seq<char>,
)
    ensures
        split_rules_model(split_rules_model(rules, p, platform, tun), p, platform, tun)
            == split_rules_model(rules, p, platform, tun),
{
    lemma_key_facts();
    let proxy = p.proxy_outbound;
    let direct = p.direct_outbound;
    let sniffp = p_action_named("sniff"@);
    let dnsp = p_action_named("hijack-dns"@);
    let pc = p_not_catch_all(proxy, tun);
    let pg = p_not_generated(proxy, direct, tun);
    let s1 = ensure_sniff(rules, tun);
    // a sniff rule exists in s1
    lemma_first_where_props(rules, sniffp);
    if first_where(rules, sniffp) >= 0 {
        assert(sniffp(s1[first_where(rules, sniffp)]));
    } else {
        lemma_sniff_rule_props(tun);
        assert(s1[0] == sniff_rule_model(tun));
        assert(sniffp(s1[0]));
    }
    let wsn1 = choose|i: int| 0 <= i < s1.len() && sniffp(#[trigger] s1[i]);
    let s2 = ensure_dns(s1);
    // a sniff and a DNS rule exist in s2
    lemma_first_where_props(s1, dnsp);
    lemma_first_where_props(s1, sniffp);
    if first_where(s1, dnsp) >= 0 {
        assert(dnsp(s2[first_where(s1, dnsp)]));
        assert(sniffp(s2[wsn1]));
    } else {
        let q = first_where(s1, sniffp) + 1;
        lemma_dns_rule_props();
        assert(s2 == insert_block(s1, q, seq![dns_rule_model()]));
        assert(s2[q] == dns_rule_model()) by {
            assert(s1.subrange(0, q).len() == q);
            assert((s1.subrange(0, q) + seq![dns_rule_model()])[q] == dns_rule_model());
        }
        assert(dnsp(s2[q]));
        lemma_insert_block_elem(s1, q, seq![dns_rule_model()], wsn1);
        assert(sniffp(s2[if wsn1 < q {
            wsn1
        } else {
            wsn1 + 1
        }]));
    }
    let wsn2 = choose|i: int| 0 <= i < s2.len() && sniffp(#[trigger] s2[i]);
    let wdn2 = choose|i: int| 0 <= i < s2.len() && dnsp(#[trigger] s2[i]);
    // action rules survive both removals
    assert(pc(s2[wsn2]) && pg(s2[wsn2]) && pc(s2[wdn2]) && pg(s2[wdn2]));
    let s3 = strip_catch_all(s2, proxy, tun);
    lemma_keep_contains(s2, pc, wsn2);
    lemma_keep_contains(s2, pc, wdn2);
    let wsn3 = choose|j: int| 0 <= j < s3.len() && #[trigger] s3[j] == s2[wsn2];
    let wdn3 = choose|j: int| 0 <= j < s3.len() && #[trigger] s3[j] == s2[wdn2];
    lemma_keep_pred(s2, pc);
    let x = strip_generated(s3, proxy, direct, tun);
    lemma_keep_contains(s3, pg, wsn3);
    lemma_keep_contains(s3, pg, wdn3);
    let wsnx = choose|j: int| 0 <= j < x.len() && #[trigger] x[j] == s3[wsn3];
    let wdnx = choose|j: int| 0 <= j < x.len() && #[trigger] x[j] == s3[wdn3];
    lemma_keep_pred(s3, pg);
    lemma_keep_preserves_all(s3, pg, pc);
    let b = build_block(p, platform, tun);
    lemma_last_where(x, p_is_action());
    let pos = last_where(x, p_is_action()) + 1;
    let s = insert_block(x, pos, b);
    assert(s == split_rules_model(rules, p, platform, tun));
    // run two: the sniff and DNS rules are already present
    lemma_insert_block_elem(x, pos, b, wsnx);
    lemma_insert_block_elem(x, pos, b, wdnx);
    assert(sniffp(s[if wsnx < pos {
        wsnx
    } else {
        wsnx + b.len()
    }]));
    assert(dnsp(s[if wdnx < pos {
        wdnx
    } else {
        wdnx + b.len()
    }]));
    lemma_first_where_props(s, sniffp);
    assert(ensure_sniff(s, tun) == s);
    lemma_first_where_props(s, dnsp);
    assert(ensure_dns(s) == s);
    // run two: nothing left matches the catch-all
    let x1 = x.subrange(0, pos);
    let x2 = x.subrange(pos, x.len() as int);
    lemma_build_block_props(p, platform, tun);
    lemma_keep_add(x1 + b, x2, pc);
    lemma_keep_add(x1, b, pc);
    assert(forall|i: int| 0 <= i < x1.len() ==> pc(#[trigger] x1[i])) by {
        assert(forall|i: int| 0 <= i < x1.len() ==> #[trigger] x1[i] == x[i]);
    }
    assert(forall|i: int| 0 <= i < x2.len() ==> pc(#[trigger] x2[i])) by {
        assert(forall|i: int| 0 <= i < x2.len() ==> #[trigger] x2[i] == x[pos + i]);
    }
    assert(forall|i: int| 0 <= i < b.len() ==> pc(#[trigger] b[i]));
    lemma_keep_all(x1, pc);
    lemma_keep_all(b, pc);
    lemma_keep_all(x2, pc);
    assert(strip_catch_all(s, proxy, tun) =~= s);
    // run two: the removal of generated rules removes exactly the block
    lemma_keep_add(x1 + b, x2, pg);
    lemma_keep_add(x1, b, pg);
    lemma_keep_pred(s3, pg);
    assert(forall|i: int| 0 <= i < x1.len() ==> pg(#[trigger] x1[i])) by {
        assert(forall|i: int| 0 <= i < x1.len() ==> #[trigger] x1[i] == x[i]);
    }
    assert(forall|i: int| 0 <= i < x2.len() ==> pg(#[trigger] x2[i])) by {
        assert(forall|i: int| 0 <= i < x2.len() ==> #[trigger] x2[i] == x[pos + i]);
    }
    assert(forall|i: int| 0 <= i < b.len() ==> !pg(#[trigger] b[i]));
    lemma_keep_all(x1, pg);
    lemma_keep_none(b, pg);
    lemma_keep_all(x2, pg);
    assert(strip_generated(s, proxy, direct, tun) =~= x1 + x2);
    assert(x1 + x2 =~= x);
    // run two: the insertion position and the block are unchanged
    assert(split_rules_model(s, p, platform, tun) == insert_block(x, pos, b));
}

/// What the split pass does to a rule list that is already of its own
/// making, possibly with harmless rules spliced between the action rules
/// and the generated block: it removes the old block and re-inserts the
/// fresh one immediately after the last action rule, in front of the
/// spliced rules.
#[verifier::rlimit(100)]
#[verifier::spinoff_prover]
pub proof fn lemma_split_rules_move(
    ya: Seq<ValueModel>,
    mid: Seq<ValueModel>,
    yb: Seq<ValueModel>,
    p: PolicyModel,
    platform: Platform,
    tun: Seq<char>,
)
    requires
        forall|i: int|
            0 <= i < ya.len() ==> !is_catch_all(#[trigger] ya[i], p.proxy_outbound, tun)
                && !is_generated(ya[i], p.proxy_outbound, p.direct_outbound, tun),
        forall|i: int|
            0 <= i < mid.len() ==> !is_catch_all(#[trigger] mid[i], p.proxy_outbound, tun)
                && !is_generated(mid[i], p.proxy_outbound, p.direct_outbound, tun)
                && !is_action_rule(mid[i]),
        forall|i: int|
            0 <= i < yb.len() ==> !is_catch_all(#[trigger] yb[i], p.proxy_outbound, tun)
                && !is_generated(yb[i], p.proxy_outbound, p.direct_outbound, tun)
                && !is_action_rule(yb[i]),
        ya.len() > 0 ==> is_action_rule(ya.last()),
        exists|i: int|
            0 <= i < (ya + mid + yb).len() && action_is(#[trigger] (ya + mid + yb)[i], "sniff"@),
        exists|i: int|
            0 <= i < (ya + mid + yb).len() && action_is(
                #[trigger] (ya + mid + yb)[i],
                "hijack-dns"@,
            ),
    ensures
        split_rules_model(
            ya + mid + build_block(p, platform, tun) + yb,
            p,
            platform,
            tun,
        ) == ya + build_block(p, platform, tun) + mid + yb,
{
    lemma_key_facts();
    let proxy = p.proxy_outbound;
    let direct = p.direct_outbound;
    let b = build_block(p, platform, tun);
    let u = ya + mid + yb;
    let w = ya + mid + b + yb;
    lemma_build_block_props(p, platform, tun);
    let sniffp = p_action_named("sniff"@);
    let dnsp = p_action_named("hijack-dns"@);
    let pc = p_not_catch_all(proxy, tun);
    let pg = p_not_generated(proxy, direct, tun);
    // the action rules of `u` sit in `w` too
    let wsn = choose|i: int| 0 <= i < u.len() && action_is(#[trigger] u[i], "sniff"@);
    let wdn = choose|i: int| 0 <= i < u.len() && action_is(#[trigger] u[i], "hijack-dns"@);
    let jsn: int = if wsn < ya.len() + mid.len() {
        wsn
    } else {
        wsn + b.len()
    };
    let jdn: int = if wdn < ya.len() + mid.len() {
        wdn
    } else {
        wdn + b.len()
    };
    assert(w[jsn] == u[wsn]) by {
        if wsn < ya.len() + mid.len() {
            assert(w[wsn] == u[wsn]);
        } else {
            assert(w[wsn + b.len()] == u[wsn]);
        }
    }
    assert(w[jdn] == u[wdn]) by {
        if wdn < ya.len() + mid.len() {
            assert(w[wdn] == u[wdn]);
        } else {
            assert(w[wdn + b.len()] == u[wdn]);
        }
    }
    assert(sniffp(w[jsn]));
    assert(dnsp(w[jdn]));
    lemma_first_where_props(w, sniffp);
    assert(ensure_sniff(w, tun) == w);
    lemma_first_where_props(w, dnsp);
    assert(ensure_dns(w) == w);
    // nothing in `w` matches the catch-all
    lemma_keep_add(ya + mid + b, yb, pc);
    lemma_keep_add(ya + mid, b, pc);
    lemma_keep_add(ya, mid, pc);
    assert(forall|i: int| 0 <= i < ya.len() ==> pc(#[trigger] ya[i]));
    assert(forall|i: int| 0 <= i < mid.len() ==> pc(#[trigger] mid[i]));
    assert(forall|i: int| 0 <= i < yb.len() ==> pc(#[trigger] yb[i]));
    assert(forall|i: int| 0 <= i < b.len() ==> pc(#[trigger] b[i]));
    lemma_keep_all(ya, pc);
    lemma_keep_all(mid, pc);
    lemma_keep_all(b, pc);
    lemma_keep_all(yb, pc);
    assert(strip_catch_all(w, proxy, tun) =~= w);
    // removing the generated rules removes exactly the block
    lemma_keep_add(ya + mid + b, yb, pg);
    lemma_keep_add(ya + mid, b, pg);
    lemma_keep_add(ya, mid, pg);
    assert(forall|i: int| 0 <= i < ya.len() ==> pg(#[trigger] ya[i]));
    assert(forall|i: int| 0 <= i < mid.len() ==> pg(#[trigger] mid[i]));
    assert(forall|i: int| 0 <= i < yb.len() ==> pg(#[trigger] yb[i]));
    assert(forall|i: int| 0 <= i < b.len() ==> !pg(#[trigger] b[i]));
    lemma_keep_all(ya, pg);
    lemma_keep_all(mid, pg);
    lemma_keep_none(b, pg);
    lemma_keep_all(yb, pg);
    assert(strip_generated(w, proxy, direct, tun) =~= u);
    // the fresh block lands immediately after the last action rule
    assert forall|j: int| ya.len() - 1 < j < u.len() implies !p_is_action()(
        #[trigger] u[j],
    ) by {
        if j < ya.len() + mid.len() {
            assert(u[j] == mid[j - ya.len()]);
        } else {
            assert(u[j] == yb[j - ya.len() - mid.len()]);
        }
    }
    if ya.len() > 0 {
        assert(u[ya.len() - 1] == ya.last());
        assert(p_is_action()(u[ya.len() - 1]));
    }
    crate::seq_util::lemma_last_where_unique(u, p_is_action(), ya.len() - 1);
    assert(insert_block(u, ya.len() as int, b) =~= ya + b + mid + yb) by {
        assert(u.subrange(0, ya.len() as int) =~= ya);
        assert(u.subrange(ya.len() as int, u.len() as int) =~= mid + yb);
    }
    assert(split_rules_model(w, p, platform, tun) == insert_block(u, ya.len() as int, b));
}

/// A document whose inbounds are already patched and whose route, on
/// Windows, already detects the interface is a fixed point of the
/// platform patch.
pub proof fn lemma_patch_identity(x: ValueModel, enabled: bool, platform: Platform)
    requires
        match value_get_model(x, "inbounds"@) {
            Some(ValueModel::Arr(items)) => forall|i: int|
                0 <= i < items.len() ==> patch_inbound(
                    #[trigger] items[i],
                    platform is Windows,
                ) == items[i],
            _ => true,
        },
        platform is Windows ==> match value_get_model(x, "route"@) {
            Some(ValueModel::Obj(rf)) => field_get(rf, "auto_detect_interface"@) is Some,
            _ => true,
        },
    ensures
        platform_patch_model(x, enabled, platform) == x,
{
    lemma_key_facts();
    if enabled && (platform is MacOs || platform is Windows) {
        let win = platform is Windows;
        match value_get_model(x, "inbounds"@) {
            Some(ValueModel::Arr(items)) => {
                let f = |m: ValueModel| patch_inbound(m, win);
                assert(items.map_values(f) =~= items);
                match x {
                    ValueModel::Obj(xf) => {
                        lemma_field_set_noop(xf, "inbounds"@, ValueModel::Arr(items));
                        assert(map_inbounds_model(x, win) == x);
                    },
                    _ => {
                        assert(false);
                    },
                }
            },
            _ => {
                assert(map_inbounds_model(x, win) == x);
            },
        }
        if win {
            assert(ensure_auto_detect_model(x) == x);
        }
    }
}

/// The cleaned rule list of the split pass.
pub open spec fn split_cleaned(
    rules: Seq<ValueModel>,
    p: PolicyModel,
    tun: Seq<char>,
) -> Seq<ValueModel> {
    strip_generated(
        strip_catch_all(ensure_dns(ensure_sniff(rules, tun)), p.proxy_outbound, tun),
        p.proxy_outbound,
        p.direct_outbound,
        tun,
    )
}

/// The shape of a split-pass rule list: the cleaned rules, with the
/// fresh block inserted after the last action rule; every cleaned rule
/// is neither the catch-all nor generated, every action rule sits
/// before the insertion point, and a sniff and a DNS rule are present.
#[verifier::rlimit(100)]
#[verifier::spinoff_prover]
pub proof fn lemma_split_shape(
    rules: Seq<ValueModel>,
    p: PolicyModel,
    platform: Platform,
    tun: Seq<char>,
)
    ensures
        ({
            let x = split_cleaned(rules, p, tun);
            let pos = last_where(x, p_is_action()) + 1;
            &&& 0 <= pos <= x.len()
            &&& split_rules_model(rules, p, platform, tun) == x.subrange(0, pos)
                + build_block(p, platform, tun) + x.subrange(pos, x.len() as int)
            &&& (forall|i: int|
                0 <= i < x.len() ==> !is_catch_all(#[trigger] x[i], p.proxy_outbound, tun)
                    && !is_generated(x[i], p.proxy_outbound, p.direct_outbound, tun))
            &&& (forall|j: int| pos <= j < x.len() ==> !is_action_rule(#[trigger] x[j]))
            &&& (pos > 0 ==> is_action_rule(x[pos - 1]))
            &&& (exists|i: int| 0 <= i < pos && action_is(#[trigger] x[i], "sniff"@))
            &&& (exists|i: int| 0 <= i < pos && action_is(#[trigger] x[i], "hijack-dns"@))
        }),
{
    lemma_key_facts();
    let proxy = p.proxy_outbound;
    let direct = p.direct_outbound;
    let sniffp = p_action_named("sniff"@);
    let dnsp = p_action_named("hijack-dns"@);
    let pc = p_not_catch_all(proxy, tun);
    let pg = p_not_generated(proxy, direct, tun);
    let s1 = ensure_sniff(rules, tun);
    lemma_first_where_props(rules, sniffp);
    if first_where(rules, sniffp) >= 0 {
        assert(sniffp(s1[first_where(rules, sniffp)]));
    } else {
        lemma_sniff_rule_props(tun);
        assert(s1[0] == sniff_rule_model(tun));
        assert(sniffp(s1[0]));
    }
    let wsn1 = choose|i: int| 0 <= i < s1.len() && sniffp(#[trigger] s1[i]);
    let s2 = ensure_dns(s1);
    lemma_first_where_props(s1, dnsp);
    lemma_first_where_props(s1, sniffp);
    if first_where(s1, dnsp) >= 0 {
        assert(dnsp(s2[first_where(s1, dnsp)]));
        assert(sniffp(s2[wsn1]));
    } else {
        let q = first_where(s1, sniffp) + 1;
        lemma_dns_rule_props();
        assert(s2 == insert_block(s1, q, seq![dns_rule_model()]));
        assert(s2[q] == dns_rule_model()) by {
            assert(s1.subrange(0, q).len() == q);
            assert((s1.subrange(0, q) + seq![dns_rule_model()])[q] == dns_rule_model());
        }
        assert(dnsp(s2[q]));
        lemma_insert_block_elem(s1, q, seq![dns_rule_model()], wsn1);
        assert(sniffp(s2[if wsn1 < q {
            wsn1
        } else {
            wsn1 + 1
        }]));
    }
    let wsn2 = choose|i: int| 0 <= i < s2.len() && sniffp(#[trigger] s2[i]);
    let wdn2 = choose|i: int| 0 <= i < s2.len() && dnsp(#[trigger] s2[i]);
    assert(pc(s2[wsn2]) && pg(s2[wsn2]) && pc(s2[wdn2]) && pg(s2[wdn2]));
    let s3 = strip_catch_all(s2, proxy, tun);
    lemma_keep_contains(s2, pc, wsn2);
    lemma_keep_contains(s2, pc, wdn2);
    let wsn3 = choose|j: int| 0 <= j < s3.len() && #[trigger] s3[j] == s2[wsn2];
    let wdn3 = choose|j: int| 0 <= j < s3.len() && #[trigger] s3[j] == s2[wdn2];
    lemma_keep_pred(s2, pc);
    let x = strip_generated(s3, proxy, direct, tun);
    assert(x == split_cleaned(rules, p, tun));
    lemma_keep_contains(s3, pg, wsn3);
    lemma_keep_contains(s3, pg, wdn3);
    let wsnx = choose|j: int| 0 <= j < x.len() && #[trigger] x[j] == s3[wsn3];
    let wdnx = choose|j: int| 0 <= j < x.len() && #[trigger] x[j] == s3[wdn3];
    lemma_keep_pred(s3, pg);
    lemma_keep_preserves_all(s3, pg, pc);
    lemma_last_where(x, p_is_action());
    let pos = last_where(x, p_is_action()) + 1;
    assert(p_is_action()(x[wsnx]));
    assert(wsnx < pos);
    assert(p_is_action()(x[wdnx]));
    assert(wdnx < pos);
    assert(forall|i: int|
        0 <= i < x.len() ==> pc(#[trigger] x[i]) && pg(x[i]));
}

/// The route-object transformation of the split pass is idempotent.
pub proof fn lemma_route_transform_idem(
    rf: Seq<(Seq<char>, ValueModel)>,
    p: PolicyModel,
    platform: Platform,
    tun: Seq<char>,
)
    ensures
        route_transform_model(route_transform_model(rf, p, platform, tun), p, platform, tun)
            == route_transform_model(rf, p, platform, tun),
{
    lemma_key_facts();
    let direct = ValueModel::Str(p.direct_outbound);
    let rf1 = field_set(rf, "final"@, direct);
    let wants = p.bypass_apps.len() > 0 || p.proxy_apps.len() > 0;
    let rf2 = if wants && field_get(rf1, "find_process"@) is None {
        field_set(rf1, "find_process"@, ValueModel::Bool(true))
    } else {
        rf1
    };
    let rules0 = match field_get(rf2, "rules"@) {
        Some(ValueModel::Arr(items)) => items,
        _ => Seq::<ValueModel>::empty(),
    };
    let s = split_rules_model(rules0, p, platform, tun);
    let rr = field_set(rf2, "rules"@, ValueModel::Arr(s));
    assert(rr == route_transform_model(rf, p, platform, tun));
    // the route default is already the direct outbound
    lemma_field_get_set_other(rf2, "rules"@, ValueModel::Arr(s), "final"@);
    if wants && field_get(rf1, "find_process"@) is None {
        lemma_field_get_set_other(rf1, "find_process"@, ValueModel::Bool(true), "final"@);
    }
    lemma_field_get_set_same(rf, "final"@, direct);
    assert(field_get(rr, "final"@) == Some(direct));
    lemma_field_set_noop(rr, "final"@, direct);
    // find_process is already filled in where it is wanted
    if wants {
        lemma_field_get_set_other(rf2, "rules"@, ValueModel::Arr(s), "find_process"@);
        if field_get(rf1, "find_process"@) is None {
            lemma_field_get_set_same(rf1, "find_process"@, ValueModel::Bool(true));
        }
        assert(field_get(rr, "find_process"@) is Some);
    }
    // the rule list is already the fixed point
    lemma_field_get_set_same(rf2, "rules"@, ValueModel::Arr(s));
    assert(field_get(rr, "rules"@) == Some(ValueModel::Arr(s)));
    lemma_split_rules_idem(rules0, p, platform, tun);
    lemma_field_set_set(rf2, "rules"@, ValueModel::Arr(s), ValueModel::Arr(s));
    assert(route_transform_model(rr, p, platform, tun) == rr);
}

/// LAW: the split-routing pass is idempotent — applying it twice with
/// the same policy and platform gives the document of one application.
pub proof fn lemma_split_pass_idem(doc: ValueModel, p: PolicyModel, platform: Platform)
    ensures
        split_pass_model(split_pass_model(doc, p, platform), p, platform) == split_pass_model(
            doc,
            p,
            platform,
        ),
{
    lemma_key_facts();
    if p.enabled {
        match doc {
            ValueModel::Obj(df) => {
                let tun = tun_tag_model(doc);
                let rf = match field_get(df, "route"@) {
                    Some(ValueModel::Obj(x)) => x,
                    _ => Seq::<(Seq<char>, ValueModel)>::empty(),
                };
                let rr = route_transform_model(rf, p, platform, tun);
                let d1f = field_set(df, "route"@, ValueModel::Obj(rr));
                let d1 = ValueModel::Obj(d1f);
                assert(d1 == split_pass_model(doc, p, platform));
                lemma_field_get_set_other(df, "route"@, ValueModel::Obj(rr), "inbounds"@);
                assert(value_get_model(d1, "inbounds"@) == value_get_model(doc, "inbounds"@));
                assert(tun_tag_model(d1) == tun);
                lemma_field_get_set_same(df, "route"@, ValueModel::Obj(rr));
                assert(field_get(d1f, "route"@) == Some(ValueModel::Obj(rr)));
                lemma_route_transform_idem(rf, p, platform, tun);
                lemma_field_set_set(df, "route"@, ValueModel::Obj(rr), ValueModel::Obj(rr));
                assert(split_pass_model(d1, p, platform) == d1);
            },
            _ => {},
        }
    }
}

/// A patched inbound is a fixed point of the patch.
pub proof fn lemma_patch_inbound_fix(m: ValueModel, win: bool)
    ensures
        patch_inbound(patch_inbound(m, win), win) == patch_inbound(m, win),
{
    lemma_key_facts();
    if is_tun_inbound(m) {
        match m {
            ValueModel::Obj(fs) => {
                if win {
                    let sys = ValueModel::Str("system"@);
                    let m2 = ValueModel::Obj(field_set(fs, "stack"@, sys));
                    lemma_field_get_set_other(fs, "stack"@, sys, "type"@);
                    assert(is_tun_inbound(m2));
                    lemma_field_set_set(fs, "stack"@, sys, sys);
                } else {
                    let m2 = ValueModel::Obj(field_remove(fs, "interface_name"@));
                    lemma_field_get_remove_other(fs, "interface_name"@, "type"@);
                    assert(is_tun_inbound(m2));
                    lemma_keep_idem(fs, p_key_not("interface_name"@));
                }
            },
            _ => {
                assert(false);
            },
        }
    }
}

/// LAW: the platform patch pass is idempotent.
pub proof fn lemma_platform_patch_idem(doc: ValueModel, enabled: bool, platform: Platform)
    ensures
        platform_patch_model(platform_patch_model(doc, enabled, platform), enabled, platform)
            == platform_patch_model(doc, enabled, platform),
{
    lemma_key_facts();
    if enabled && (platform is MacOs || platform is Windows) {
        let win = platform is Windows;
        let d1 = map_inbounds_model(doc, win);
        match value_get_model(doc, "inbounds"@) {
            Some(ValueModel::Arr(items)) => {
                let f = |m: ValueModel| patch_inbound(m, win);
                let mapped = items.map_values(f);
                match doc {
                    ValueModel::Obj(df) => {
                        assert(d1 == ValueModel::Obj(
                            field_set(df, "inbounds"@, ValueModel::Arr(mapped)),
                        ));
                        lemma_field_get_set_same(df, "inbounds"@, ValueModel::Arr(mapped));
                        // the mapped inbounds are a fixed point, elementwise
                        assert forall|i: int| 0 <= i < mapped.len() implies f(
                            #[trigger] mapped[i],
                        ) == mapped[i] by {
                            lemma_patch_inbound_fix(items[i], win);
                        }
                        assert(mapped.map_values(f) =~= mapped);
                        let d2 = if win {
                            ensure_auto_detect_model(d1)
                        } else {
                            d1
                        };
                        // the route fix leaves the inbounds readable unchanged
                        if win {
                            lemma_ensure_auto_detect_keeps(d1, "inbounds"@);
                        }
                        assert(value_get_model(d2, "inbounds"@) == Some(
                            ValueModel::Arr(mapped),
                        ));
                        // mapping again changes nothing
                        match d2 {
                            ValueModel::Obj(d2f) => {
                                lemma_field_set_noop(d2f, "inbounds"@, ValueModel::Arr(mapped));
                                assert(map_inbounds_model(d2, win) == d2);
                            },
                            _ => {
                                assert(false);
                            },
                        }
                        if win {
                            lemma_ensure_auto_detect_idem(d1);
                            assert(ensure_auto_detect_model(d2) == d2);
                        }
                    },
                    _ => {
                        assert(false);
                    },
                }
            },
            _ => {
                assert(d1 == doc);
                let d2 = if win {
                    ensure_auto_detect_model(d1)
                } else {
                    d1
                };
                if win {
                    lemma_ensure_auto_detect_keeps(doc, "inbounds"@);
                    assert(value_get_model(d2, "inbounds"@) == value_get_model(
                        doc,
                        "inbounds"@,
                    ));
                    assert(map_inbounds_model(d2, win) == d2);
                    lemma_ensure_auto_detect_idem(doc);
                }
            },
        }
    }
}

/// The route fix touches only the route object: every other key of the
/// document reads unchanged.
pub proof fn lemma_ensure_auto_detect_keeps(doc: ValueModel, q: Seq<char>)
    requires
        q != "route"@,
    ensures
        value_get_model(ensure_auto_detect_model(doc), q) == value_get_model(doc, q),
{
    match value_get_model(doc, "route"@) {
        Some(ValueModel::Obj(rf)) => {
            if field_get(rf, "auto_detect_interface"@) is Some {
            } else {
                match doc {
                    ValueModel::Obj(df) => {
                        lemma_field_get_set_other(
                            df,
                            "route"@,
                            ValueModel::Obj(
                                field_set(rf, "auto_detect_interface"@, ValueModel::Bool(true)),
                            ),
                            q,
                        );
                    },
                    _ => {},
                }
            }
        },
        _ => {},
    }
}

/// Filling in `route.auto_detect_interface` is idempotent.
pub proof fn lemma_ensure_auto_detect_idem(doc: ValueModel)
    ensures
        ensure_auto_detect_model(ensure_auto_detect_model(doc)) == ensure_auto_detect_model(
            doc,
        ),
{
    lemma_key_facts();
    match value_get_model(doc, "route"@) {
        Some(ValueModel::Obj(rf)) => {
            if field_get(rf, "auto_detect_interface"@) is Some {
            } else {
                match doc {
                    ValueModel::Obj(df) => {
                        let rf2 = field_set(rf, "auto_detect_interface"@, ValueModel::Bool(true));
                        let d2 = value_set_model(doc, "route"@, ValueModel::Obj(rf2));
                        lemma_field_get_set_same(df, "route"@, ValueModel::Obj(rf2));
                        lemma_field_get_set_same(rf, "auto_detect_interface"@, ValueModel::Bool(true));
                        assert(value_get_model(d2, "route"@) == Some(ValueModel::Obj(rf2)));
                        assert(field_get(rf2, "auto_detect_interface"@) is Some);
                        assert(ensure_auto_detect_model(d2) == d2);
                    },
                    _ => {
                        assert(false);
                    },
                }
            }
        },
        _ => {},
    }
}

/// LAW: the legacy pass changes nothing while it is inactive. While it
/// is active it prepends a fresh copy of its rule on every run by
/// design, so only the inactive pass is idempotent.
pub proof fn lemma_legacy_pass_inactive(doc: ValueModel, p: PolicyModel, platform: Platform)
    requires
        !crate::legacy::legacy_active(p, platform),
    ensures
        crate::legacy::legacy_pass_model(doc, p, platform) == doc,
{
}

/// LAW: the composed pipeline is idempotent while split tunneling is
/// off and the legacy pass is inactive: the platform patch and the
/// split pass then leave the document alone, and the SOCKS pass is
/// idempotent on its own.
pub proof fn lemma_apply_idem_split_off(doc: ValueModel, p: PolicyModel, platform: Platform)
    requires
        !p.enabled,
        !crate::legacy::legacy_active(p, platform),
    ensures
        crate::engine::apply_model(crate::engine::apply_model(doc, p, platform), p, platform)
            == crate::engine::apply_model(doc, p, platform),
{
    assert(crate::engine::apply_model(doc, p, platform) == socks_pass_model(doc, p));
    lemma_socks_pass_idem(doc, p);
}

/// The facts about the patched document the rest of the pipeline
/// argument rests on: it is still an object, its inbounds are fixed
/// points of the patch, its tunnel tag is unchanged, and on Windows its
/// route already detects the interface.
proof fn lemma_patched_doc_props(doc: ValueModel, p: PolicyModel, platform: Platform)
    requires
        p.enabled,
        doc is Obj,
        platform is Windows ==> value_get_model(doc, "route"@) is Some && value_get_model(
            doc,
            "route"@,
        )->Some_0 is Obj,
    ensures
        ({
            let d1 = platform_patch_model(doc, p.enabled, platform);
            &&& d1 is Obj
            &&& tun_tag_model(d1) == tun_tag_model(doc)
            &&& (platform is MacOs || platform is Windows ==> match value_get_model(
                d1,
                "inbounds"@,
            ) {
                Some(ValueModel::Arr(items)) => forall|i: int|
                    0 <= i < items.len() ==> patch_inbound(
                        #[trigger] items[i],
                        platform is Windows,
                    ) == items[i],
                Some(_) => true,
                None => true,
            })
            &&& (platform is Windows ==> field_get(route_fields(d1), "auto_detect_interface"@)
                is Some)
        }),
{
    lemma_key_facts();
    let win = platform is Windows;
    let d1 = platform_patch_model(doc, p.enabled, platform);
    match platform {
        Platform::Linux => {
            assert(d1 == doc);
        },
        Platform::MacOs => {
            let m1 = map_inbounds_model(doc, false);
            assert(d1 == m1);
            lemma_map_props(doc, false);
        },
        Platform::Windows => {
            let m1 = map_inbounds_model(doc, true);
            lemma_map_props(doc, true);
            assert(d1 == ensure_auto_detect_model(m1));
            lemma_ensure_auto_detect_keeps(m1, "inbounds"@);
            let rf0 = value_get_model(doc, "route"@)->Some_0->Obj_0;
            assert(value_get_model(m1, "route"@) == Some(ValueModel::Obj(rf0))) by {
                match value_get_model(doc, "inbounds"@) {
                    Some(ValueModel::Arr(items)) => {
                        match doc {
                            ValueModel::Obj(df) => {
                                lemma_field_get_set_other(
                                    df,
                                    "inbounds"@,
                                    ValueModel::Arr(
                                        items.map_values(
                                            |m: ValueModel| patch_inbound(m, true),
                                        ),
                                    ),
                                    "route"@,
                                );
                            },
                            _ => {
                                assert(false);
                            },
                        }
                    },
                    _ => {},
                }
            }
            match m1 {
                ValueModel::Obj(m1f) => {
                    if field_get(rf0, "auto_detect_interface"@) is Some {
                        assert(d1 == m1);
                        assert(route_fields(d1) == rf0);
                    } else {
                        let rf0b = field_set(
                            rf0,
                            "auto_detect_interface"@,
                            ValueModel::Bool(true),
                        );
                        assert(d1 == ValueModel::Obj(
                            field_set(m1f, "route"@, ValueModel::Obj(rf0b)),
                        ));
                        lemma_field_get_set_same(m1f, "route"@, ValueModel::Obj(rf0b));
                        lemma_field_get_set_same(
                            rf0,
                            "auto_detect_interface"@,
                            ValueModel::Bool(true),
                        );
                        lemma_field_get_set_other(
                            m1f,
                            "route"@,
                            ValueModel::Obj(rf0b),
                            "inbounds"@,
                        );
                        assert(value_get_model(d1, "inbounds"@) == value_get_model(
                            m1,
                            "inbounds"@,
                        ));
                        assert(tun_tag_model(d1) == tun_tag_model(m1));
                        assert(route_fields(d1) == rf0b);
                        assert(field_get(rf0b, "auto_detect_interface"@) is Some);
                    }
                },
                _ => {
                    assert(false);
                },
            }
        },
    }
}

/// The inbound map of the patch: the document stays an object, the
/// mapped inbounds are fixed points, and the tunnel tag is unchanged.
proof fn lemma_map_props(doc: ValueModel, win: bool)
    requires
        doc is Obj,
    ensures
        ({
            let m1 = map_inbounds_model(doc, win);
            &&& m1 is Obj
            &&& tun_tag_model(m1) == tun_tag_model(doc)
            &&& match value_get_model(m1, "inbounds"@) {
                Some(ValueModel::Arr(items)) => forall|i: int|
                    0 <= i < items.len() ==> patch_inbound(#[trigger] items[i], win)
                        == items[i],
                Some(_) => true,
                None => true,
            }
        }),
{
    lemma_key_facts();
    let m1 = map_inbounds_model(doc, win);
    match value_get_model(doc, "inbounds"@) {
        Some(ValueModel::Arr(items)) => {
            let f = |m: ValueModel| patch_inbound(m, win);
            let mapped = items.map_values(f);
            match doc {
                ValueModel::Obj(df) => {
                    assert(m1 == ValueModel::Obj(
                        field_set(df, "inbounds"@, ValueModel::Arr(mapped)),
                    ));
                    lemma_field_get_set_same(df, "inbounds"@, ValueModel::Arr(mapped));
                    assert forall|i: int| 0 <= i < mapped.len() implies patch_inbound(
                        #[trigger] mapped[i],
                        win,
                    ) == mapped[i] by {
                        lemma_patch_inbound_fix(items[i], win);
                    }
                    lemma_patch_keeps_tun_tag(items, win);
                    assert(tun_tag_model(m1) == crate::rules::tun_tag_of_inbounds(mapped));
                },
                _ => {
                    assert(false);
                },
            }
        },
        Some(other) => {
            assert(m1 == doc);
            assert(!(other is Arr));
        },
        None => {
            assert(m1 == doc);
        },
    }
}

/// LAW: the composed pipeline — platform patch, split routing, SOCKS,
/// legacy — is idempotent, for every document, policy and platform with
/// three exclusions. The legacy pass must be inactive: while active it
/// prepends a fresh rule every run by design. On Windows with split
/// tunneling enabled the document must carry a route object: the patch
/// fills `auto_detect_interface` only into an existing route, so a
/// route created later by the split pass would be patched one run
/// late. And with split tunneling enabled the tunnel inbound must not
/// be tagged as the SOCKS listener, or the removal phase of the SOCKS
/// pass would delete it.
pub proof fn lemma_apply_idem(doc: ValueModel, p: PolicyModel, platform: Platform)
    requires
        !crate::legacy::legacy_active(p, platform),
        p.enabled && platform is Windows ==> value_get_model(doc, "route"@) is Some
            && value_get_model(doc, "route"@)->Some_0 is Obj,
        p.enabled ==> tun_tag_model(doc) != "socks-in"@,
    ensures
        crate::engine::apply_model(crate::engine::apply_model(doc, p, platform), p, platform)
            == crate::engine::apply_model(doc, p, platform),
{
    if !p.enabled {
        lemma_apply_idem_split_off(doc, p, platform);
    } else {
        match doc {
            ValueModel::Obj(df) => {
                if p.socks5_enabled {
                    lemma_apply_idem_enabled_socks_on(doc, p, platform);
                } else {
                    lemma_apply_idem_enabled_socks_off(doc, p, platform);
                }
            },
            _ => {
                assert(platform_patch_model(doc, p.enabled, platform) == doc);
                assert(split_pass_model(doc, p, platform) == doc);
                assert(socks_pass_model(doc, p) == doc);
                assert(crate::engine::apply_model(doc, p, platform) == doc);
            },
        }
    }
}

/// The pipeline on an enabled policy with the SOCKS toggle off: the
/// second run's patch, split and SOCKS strips all leave the first run's
/// output alone.
#[verifier::rlimit(100)]
#[verifier::spinoff_prover]
proof fn lemma_apply_idem_enabled_socks_off(doc: ValueModel, p: PolicyModel, platform: Platform)
    requires
        p.enabled,
        !p.socks5_enabled,
        !crate::legacy::legacy_active(p, platform),
        doc is Obj,
        platform is Windows ==> value_get_model(doc, "route"@) is Some && value_get_model(
            doc,
            "route"@,
        )->Some_0 is Obj,
        tun_tag_model(doc) != "socks-in"@,
    ensures
        crate::engine::apply_model(crate::engine::apply_model(doc, p, platform), p, platform)
            == crate::engine::apply_model(doc, p, platform),
{
    lemma_key_facts();
    let win = platform is Windows;
    let proxy = p.proxy_outbound;
    let direct = p.direct_outbound;
    lemma_patched_doc_props(doc, p, platform);
    let d1 = platform_patch_model(doc, p.enabled, platform);
    let d1f = d1->Obj_0;
    let tun = tun_tag_model(d1);
    let rf1 = route_fields(d1);
    let d2 = split_pass_model(d1, p, platform);
    let rr = route_transform_model(rf1, p, platform, tun);
    let d2f = field_set(d1f, "route"@, ValueModel::Obj(rr));
    assert(d2 == ValueModel::Obj(d2f));
    // unfold the route transformation of run one
    let rf1a = field_set(rf1, "final"@, ValueModel::Str(direct));
    let wants = p.bypass_apps.len() > 0 || p.proxy_apps.len() > 0;
    let rf2m = if wants && field_get(rf1a, "find_process"@) is None {
        field_set(rf1a, "find_process"@, ValueModel::Bool(true))
    } else {
        rf1a
    };
    let rules0 = match field_get(rf2m, "rules"@) {
        Some(ValueModel::Arr(items)) => items,
        _ => Seq::<ValueModel>::empty(),
    };
    let s = split_rules_model(rules0, p, platform, tun);
    assert(rr == field_set(rf2m, "rules"@, ValueModel::Arr(s)));
    lemma_split_shape(rules0, p, platform, tun);
    let x = split_cleaned(rules0, p, tun);
    let pos = last_where(x, p_is_action()) + 1;
    let xa = x.subrange(0, pos);
    let xb = x.subrange(pos, x.len() as int);
    let b = build_block(p, platform, tun);
    assert(s == xa + b + xb);
    lemma_build_block_props(p, platform, tun);
    // the SOCKS strips of run one
    lemma_socks_strip_props(d2);
    let d3 = socks_pass_model(d2, p);
    assert(d3 == strip_socks_rules_model(strip_socks_inbounds_model(d2)));
    // inbound strip: either keeps the patched list or does nothing
    lemma_field_get_set_other(d1f, "route"@, ValueModel::Obj(rr), "inbounds"@);
    assert(value_get_model(d2, "inbounds"@) == value_get_model(d1, "inbounds"@));
    let d2s = strip_socks_inbounds_model(d2);
    // rule strip: the route keeps its fields, the rules lose nothing new
    lemma_field_get_set_same(d1f, "route"@, ValueModel::Obj(rr));
    lemma_field_get_set_same(rf2m, "rules"@, ValueModel::Arr(s));
    let sk = keep(s, p_not_simple_socks());
    assert forall|i: int| 0 <= i < b.len() implies p_not_simple_socks()(#[trigger] b[i]) by {
        assert(is_generated(b[i], proxy, direct, tun));
    }
    let ka = keep(xa, p_not_simple_socks());
    let kb = keep(xb, p_not_simple_socks());
    lemma_keep_add(xa + b, xb, p_not_simple_socks());
    lemma_keep_add(xa, b, p_not_simple_socks());
    lemma_keep_all(b, p_not_simple_socks());
    assert(sk =~= ka + b + kb);
    let rf3 = field_set(rr, "rules"@, ValueModel::Arr(sk));
    // the stripped document, concretely
    let d2sf = d2s->Obj_0;
    assert(value_get_model(d2s, "route"@) == Some(ValueModel::Obj(rr))) by {
        match value_get_model(d2, "inbounds"@) {
            Some(ValueModel::Arr(items)) => {
                assert(d2s == crate::value::value_set_model(
                    d2,
                    "inbounds"@,
                    ValueModel::Arr(keep(items, p_not_socks_inbound())),
                ));
                lemma_field_get_set_other(
                    d2f,
                    "inbounds"@,
                    ValueModel::Arr(keep(items, p_not_socks_inbound())),
                    "route"@,
                );
            },
            _ => {
                assert(d2s == d2);
            },
        }
    }
    assert(d3 == crate::value::value_set_model(d2s, "route"@, ValueModel::Obj(rf3)));
    let d3f = field_set(d2sf, "route"@, ValueModel::Obj(rf3));
    assert(d3 == ValueModel::Obj(d3f));
    lemma_field_get_set_same(d2sf, "route"@, ValueModel::Obj(rf3));
    assert(value_get_model(d3, "route"@) == Some(ValueModel::Obj(rf3)));
    lemma_field_get_set_other(d2sf, "route"@, ValueModel::Obj(rf3), "inbounds"@);
    assert(value_get_model(d3, "inbounds"@) == value_get_model(d2s, "inbounds"@));
    // the inbound list the second patch will see
    match value_get_model(d2, "inbounds"@) {
        Some(ValueModel::Arr(items)) => {
            assert(d2s == crate::value::value_set_model(
                d2,
                "inbounds"@,
                ValueModel::Arr(keep(items, p_not_socks_inbound())),
            ));
            lemma_field_get_set_same(
                d2f,
                "inbounds"@,
                ValueModel::Arr(keep(items, p_not_socks_inbound())),
            );
            assert(value_get_model(d3, "inbounds"@) == Some(
                ValueModel::Arr(keep(items, p_not_socks_inbound())),
            ));
        },
        _ => {
            assert(d2s == d2);
            assert(value_get_model(d3, "inbounds"@) == value_get_model(d1, "inbounds"@));
        },
    }
    // the route value the second patch will see keeps the interface flag
    lemma_field_get_set_other(rr, "rules"@, ValueModel::Arr(sk), "auto_detect_interface"@);
    // the second patch changes nothing
    lemma_patch_identity_holds(doc, p, platform, d3);
    assert(platform_patch_model(d3, p.enabled, platform) == d3);
    // the tunnel tag is unchanged
    assert(tun_tag_model(d3) == tun) by {
        match value_get_model(d2, "inbounds"@) {
            Some(ValueModel::Arr(items)) => {
                assert(crate::rules::tun_tag_of_inbounds(items) == tun);
                lemma_strip_keeps_tun_tag(items);
                assert(value_get_model(d3, "inbounds"@) == Some(
                    ValueModel::Arr(keep(items, p_not_socks_inbound())),
                ));
            },
            _ => {
                assert(value_get_model(d3, "inbounds"@) == value_get_model(d1, "inbounds"@));
            },
        }
    }
    // the second split changes nothing
    lemma_field_get_set_other(rr, "rules"@, ValueModel::Arr(sk), "final"@);
    lemma_field_get_set_other(rf2m, "rules"@, ValueModel::Arr(s), "final"@);
    if wants && field_get(rf1a, "find_process"@) is None {
        lemma_field_get_set_other(rf1a, "find_process"@, ValueModel::Bool(true), "final"@);
    }
    lemma_field_get_set_same(rf1, "final"@, ValueModel::Str(direct));
    assert(field_get(rf3, "final"@) == Some(ValueModel::Str(direct)));
    lemma_field_set_noop(rf3, "final"@, ValueModel::Str(direct));
    if wants {
        lemma_field_get_set_other(rr, "rules"@, ValueModel::Arr(sk), "find_process"@);
        lemma_field_get_set_other(rf2m, "rules"@, ValueModel::Arr(s), "find_process"@);
        if field_get(rf1a, "find_process"@) is None {
            lemma_field_get_set_same(rf1a, "find_process"@, ValueModel::Bool(true));
        }
        assert(field_get(rf3, "find_process"@) is Some);
    }
    lemma_field_get_set_same(rr, "rules"@, ValueModel::Arr(sk));
    assert(field_get(rf3, "rules"@) == Some(ValueModel::Arr(sk)));
    // the rules of the stripped list are already the split's fixed point
    lemma_stripped_split_fix(x, pos, p, platform, tun);
    assert(sk == ka + b + kb);
    assert(split_rules_model(sk, p, platform, tun) == sk);
    lemma_field_set_noop(rf3, "rules"@, ValueModel::Arr(sk));
    assert(route_transform_model(rf3, p, platform, tun) == rf3);
    let e2 = split_pass_model(d3, p, platform);
    assert(e2 == ValueModel::Obj(field_set(d3f, "route"@, ValueModel::Obj(rf3))));
    lemma_field_set_noop(d3f, "route"@, ValueModel::Obj(rf3));
    assert(e2 == d3);
    // the second SOCKS strips change nothing
    assert(socks_pass_model(d3, p) == d3);
    assert(crate::engine::apply_model(d3, p, platform) == d3);
}

/// The pipeline on an enabled policy with the SOCKS toggle on: the
/// second run strips what the first added, regenerates the same rules,
/// and puts the SOCKS rule back where it was.
#[verifier::rlimit(100)]
#[verifier::spinoff_prover]
proof fn lemma_apply_idem_enabled_socks_on(doc: ValueModel, p: PolicyModel, platform: Platform)
    requires
        p.enabled,
        p.socks5_enabled,
        !crate::legacy::legacy_active(p, platform),
        doc is Obj,
        platform is Windows ==> value_get_model(doc, "route"@) is Some && value_get_model(
            doc,
            "route"@,
        )->Some_0 is Obj,
        tun_tag_model(doc) != "socks-in"@,
    ensures
        crate::engine::apply_model(crate::engine::apply_model(doc, p, platform), p, platform)
            == crate::engine::apply_model(doc, p, platform),
{
    lemma_key_facts();
    let win = platform is Windows;
    let proxy = p.proxy_outbound;
    let direct = p.direct_outbound;
    lemma_patched_doc_props(doc, p, platform);
    let d1 = platform_patch_model(doc, p.enabled, platform);
    let d1f = d1->Obj_0;
    let tun = tun_tag_model(d1);
    let rf1 = route_fields(d1);
    let d2 = split_pass_model(d1, p, platform);
    let rr = route_transform_model(rf1, p, platform, tun);
    let d2f = field_set(d1f, "route"@, ValueModel::Obj(rr));
    assert(d2 == ValueModel::Obj(d2f));
    // unfold the route transformation of run one
    let rf1a = field_set(rf1, "final"@, ValueModel::Str(direct));
    let wants = p.bypass_apps.len() > 0 || p.proxy_apps.len() > 0;
    let rf2m = if wants && field_get(rf1a, "find_process"@) is None {
        field_set(rf1a, "find_process"@, ValueModel::Bool(true))
    } else {
        rf1a
    };
    let rules0 = match field_get(rf2m, "rules"@) {
        Some(ValueModel::Arr(items)) => items,
        _ => Seq::<ValueModel>::empty(),
    };
    let s = split_rules_model(rules0, p, platform, tun);
    assert(rr == field_set(rf2m, "rules"@, ValueModel::Arr(s)));
    lemma_split_shape(rules0, p, platform, tun);
    let x = split_cleaned(rules0, p, tun);
    let pos = last_where(x, p_is_action()) + 1;
    let xa = x.subrange(0, pos);
    let xb = x.subrange(pos, x.len() as int);
    let b = build_block(p, platform, tun);
    assert(s == xa + b + xb);
    lemma_build_block_props(p, platform, tun);
    // the SOCKS removal phase of run one
    lemma_socks_strip_props(d2);
    let y = strip_socks_rules_model(strip_socks_inbounds_model(d2));
    lemma_field_get_set_other(d1f, "route"@, ValueModel::Obj(rr), "inbounds"@);
    assert(value_get_model(d2, "inbounds"@) == value_get_model(d1, "inbounds"@));
    let d2s = strip_socks_inbounds_model(d2);
    lemma_field_get_set_same(d1f, "route"@, ValueModel::Obj(rr));
    lemma_field_get_set_same(rf2m, "rules"@, ValueModel::Arr(s));
    let sk = keep(s, p_not_simple_socks());
    assert forall|i: int| 0 <= i < b.len() implies p_not_simple_socks()(#[trigger] b[i]) by {
        assert(is_generated(b[i], proxy, direct, tun));
    }
    let ka = keep(xa, p_not_simple_socks());
    let kb = keep(xb, p_not_simple_socks());
    lemma_keep_add(xa + b, xb, p_not_simple_socks());
    lemma_keep_add(xa, b, p_not_simple_socks());
    lemma_keep_all(b, p_not_simple_socks());
    assert(sk =~= ka + b + kb);
    let rf3 = field_set(rr, "rules"@, ValueModel::Arr(sk));
    let d2sf = d2s->Obj_0;
    assert(value_get_model(d2s, "route"@) == Some(ValueModel::Obj(rr))) by {
        match value_get_model(d2, "inbounds"@) {
            Some(ValueModel::Arr(items)) => {
                assert(d2s == crate::value::value_set_model(
                    d2,
                    "inbounds"@,
                    ValueModel::Arr(keep(items, p_not_socks_inbound())),
                ));
                lemma_field_get_set_other(
                    d2f,
                    "inbounds"@,
                    ValueModel::Arr(keep(items, p_not_socks_inbound())),
                    "route"@,
                );
            },
            _ => {
                assert(d2s == d2);
            },
        }
    }
    assert(y == crate::value::value_set_model(d2s, "route"@, ValueModel::Obj(rf3)));
    let yf = field_set(d2sf, "route"@, ValueModel::Obj(rf3));
    assert(y == ValueModel::Obj(yf));
    lemma_field_get_set_same(d2sf, "route"@, ValueModel::Obj(rf3));
    assert(value_get_model(y, "route"@) == Some(ValueModel::Obj(rf3)));
    assert(route_fields(y) == rf3);
    lemma_field_get_set_other(d2sf, "route"@, ValueModel::Obj(rf3), "inbounds"@);
    assert(value_get_model(y, "inbounds"@) == value_get_model(d2s, "inbounds"@));
    lemma_field_get_set_same(rr, "rules"@, ValueModel::Arr(sk));
    assert(field_get(rf3, "rules"@) == Some(ValueModel::Arr(sk)));
    assert(rules_list(rf3) == sk);
    let list = inbounds_list(y);
    match value_get_model(d2, "inbounds"@) {
        Some(ValueModel::Arr(items)) => {
            assert(d2s == crate::value::value_set_model(
                d2,
                "inbounds"@,
                ValueModel::Arr(keep(items, p_not_socks_inbound())),
            ));
            lemma_field_get_set_same(
                d2f,
                "inbounds"@,
                ValueModel::Arr(keep(items, p_not_socks_inbound())),
            );
            assert(value_get_model(y, "inbounds"@) == Some(
                ValueModel::Arr(keep(items, p_not_socks_inbound())),
            ));
            assert(list == keep(items, p_not_socks_inbound()));
        },
        _ => {
            assert(d2s == d2);
            assert(value_get_model(y, "inbounds"@) == value_get_model(d1, "inbounds"@));
            assert(list == Seq::<ValueModel>::empty());
        },
    }
    // the enable phase of run one
    let out = socks_outbound(p);
    let sock = socks_inbound_model();
    let sr = socks_rule_model("socks-in"@, out);
    let ay = ValueModel::Arr(list.push(sock));
    let q = last_where(sk, p_is_action()) + 1;
    let ib = insert_block(sk, q, seq![sr]);
    let rbf = field_set(rf3, "rules"@, ValueModel::Arr(ib));
    let rb = ValueModel::Obj(rbf);
    lemma_socks_strip_after_add(y, out);
    let w = add_socks_rule_model(add_socks_inbound_model(y), out);
    let wf = field_set(field_set(yf, "inbounds"@, ay), "route"@, rb);
    assert(w == ValueModel::Obj(wf));
    let d3 = socks_pass_model(d2, p);
    assert(d3 == w);
    let d3f = wf;
    // where the SOCKS rule landed: right after the last action rule
    assert forall|i: int| 0 <= i < kb.len() implies !is_action_rule(#[trigger] kb[i]) by {
        let na = |m: ValueModel| !is_action_rule(m);
        assert(forall|j: int| 0 <= j < xb.len() ==> na(#[trigger] xb[j]));
        lemma_keep_preserves_all(xb, p_not_simple_socks(), na);
    }
    if pos > 0 {
        assert(xa.last() == x[pos - 1]);
        assert(has_key(xa.last(), "action"@));
        assert(p_not_simple_socks()(xa.last()));
        assert(ka == keep(xa.drop_last(), p_not_simple_socks()).push(xa.last()));
        assert(ka.len() > 0 && ka.last() == x[pos - 1]);
    } else {
        assert(xa.len() == 0);
        assert(ka.len() == 0);
    }
    assert forall|j: int| ka.len() - 1 < j < sk.len() implies !p_is_action()(
        #[trigger] sk[j],
    ) by {
        if j < ka.len() + b.len() {
            assert(sk[j] == b[j - ka.len()]);
        } else {
            assert(sk[j] == kb[j - ka.len() - b.len()]);
        }
    }
    if ka.len() > 0 {
        assert(sk[ka.len() - 1] == ka.last());
        assert(p_is_action()(sk[ka.len() - 1]));
    }
    crate::seq_util::lemma_last_where_unique(sk, p_is_action(), ka.len() - 1);
    assert(q == ka.len() as int);
    assert(ib =~= ka + seq![sr] + b + kb) by {
        assert(sk.subrange(0, q) =~= ka);
        assert(sk.subrange(q, sk.len() as int) =~= b + kb);
        assert(seq![sr] + (b + kb) =~= seq![sr] + b + kb);
    }
    // the second patch changes nothing
    lemma_field_get_set_other(yf, "inbounds"@, ay, "route"@);
    lemma_field_get_set_same(yf, "inbounds"@, ay);
    lemma_field_get_set_same(field_set(yf, "inbounds"@, ay), "route"@, rb);
    lemma_field_get_set_other(field_set(yf, "inbounds"@, ay), "route"@, rb, "inbounds"@);
    assert(value_get_model(d3, "inbounds"@) == Some(ay));
    assert(value_get_model(d3, "route"@) == Some(rb));
    lemma_field_get_set_other(rf3, "rules"@, ValueModel::Arr(ib), "auto_detect_interface"@);
    lemma_field_get_set_other(rr, "rules"@, ValueModel::Arr(sk), "auto_detect_interface"@);
    assert(field_get(rbf, "auto_detect_interface"@) == field_get(
        rr,
        "auto_detect_interface"@,
    ));
    lemma_patch_identity_holds(doc, p, platform, d3);
    assert(platform_patch_model(d3, p.enabled, platform) == d3);
    // the tunnel tag is unchanged
    lemma_socks_inbound_props();
    lemma_push_keeps_tun_tag(list, sock);
    assert(tun_tag_model(d3) == crate::rules::tun_tag_of_inbounds(list.push(sock)));
    assert(tun_tag_model(d3) == tun) by {
        match value_get_model(d2, "inbounds"@) {
            Some(ValueModel::Arr(items)) => {
                assert(crate::rules::tun_tag_of_inbounds(items) == tun);
                lemma_strip_keeps_tun_tag(items);
            },
            _ => {
                assert(tun == "tun-in"@);
                assert(crate::rules::tun_tag_of_inbounds(Seq::<ValueModel>::empty())
                    == "tun-in"@);
            },
        }
    }
    // the second split moves the block back in front of the SOCKS rule
    lemma_field_get_set_other(rf3, "rules"@, ValueModel::Arr(ib), "final"@);
    lemma_field_get_set_other(rr, "rules"@, ValueModel::Arr(sk), "final"@);
    lemma_field_get_set_other(rf2m, "rules"@, ValueModel::Arr(s), "final"@);
    if wants && field_get(rf1a, "find_process"@) is None {
        lemma_field_get_set_other(rf1a, "find_process"@, ValueModel::Bool(true), "final"@);
    }
    lemma_field_get_set_same(rf1, "final"@, ValueModel::Str(direct));
    assert(field_get(rbf, "final"@) == Some(ValueModel::Str(direct)));
    lemma_field_set_noop(rbf, "final"@, ValueModel::Str(direct));
    if wants {
        lemma_field_get_set_other(rf3, "rules"@, ValueModel::Arr(ib), "find_process"@);
        lemma_field_get_set_other(rr, "rules"@, ValueModel::Arr(sk), "find_process"@);
        lemma_field_get_set_other(rf2m, "rules"@, ValueModel::Arr(s), "find_process"@);
        if field_get(rf1a, "find_process"@) is None {
            lemma_field_get_set_same(rf1a, "find_process"@, ValueModel::Bool(true));
        }
        assert(field_get(rbf, "find_process"@) is Some);
    }
    lemma_field_get_set_same(rf3, "rules"@, ValueModel::Arr(ib));
    assert(field_get(rbf, "rules"@) == Some(ValueModel::Arr(ib)));
    // the move: requirements of the rule-level lemma
    let nc = |m: ValueModel| !is_catch_all(m, proxy, tun);
    let ng = |m: ValueModel| !is_generated(m, proxy, direct, tun);
    assert(forall|i: int| 0 <= i < xa.len() ==> nc(#[trigger] xa[i]) && ng(xa[i]));
    assert(forall|i: int| 0 <= i < xb.len() ==> nc(#[trigger] xb[i]) && ng(xb[i]));
    lemma_keep_preserves_all(xa, p_not_simple_socks(), nc);
    lemma_keep_preserves_all(xa, p_not_simple_socks(), ng);
    lemma_keep_preserves_all(xb, p_not_simple_socks(), nc);
    lemma_keep_preserves_all(xb, p_not_simple_socks(), ng);
    lemma_socks_rule_props("socks-in"@, out);
    assert(!sole_inbound(sr, tun)) by {
        assert(sole_inbound(sr, "socks-in"@));
        if sole_inbound(sr, tun) {
            assert(ValueModel::Arr(seq![ValueModel::Str("socks-in"@)]) == ValueModel::Arr(
                seq![ValueModel::Str(tun)],
            ));
            assert(seq![ValueModel::Str("socks-in"@)][0] == seq![ValueModel::Str(tun)][0]);
        }
    }
    let isn = choose|i: int| 0 <= i < pos && action_is(#[trigger] x[i], "sniff"@);
    let idn = choose|i: int| 0 <= i < pos && action_is(#[trigger] x[i], "hijack-dns"@);
    assert(xa[isn] == x[isn]);
    assert(has_key(xa[isn], "action"@));
    assert(p_not_simple_socks()(xa[isn]));
    lemma_keep_contains(xa, p_not_simple_socks(), isn);
    assert(xa[idn] == x[idn]);
    assert(has_key(xa[idn], "action"@));
    assert(p_not_simple_socks()(xa[idn]));
    lemma_keep_contains(xa, p_not_simple_socks(), idn);
    let jsn = choose|j: int| 0 <= j < ka.len() && #[trigger] ka[j] == xa[isn];
    let jdn = choose|j: int| 0 <= j < ka.len() && #[trigger] ka[j] == xa[idn];
    let u = ka + seq![sr] + kb;
    assert(u[jsn] == ka[jsn]);
    assert(u[jdn] == ka[jdn]);
    assert(action_is(u[jsn], "sniff"@));
    assert(action_is(u[jdn], "hijack-dns"@));
    lemma_split_rules_move(ka, seq![sr], kb, p, platform, tun);
    let t = ka + b + seq![sr] + kb;
    assert(split_rules_model(ib, p, platform, tun) == t) by {
        assert(ib == ka + seq![sr] + b + kb);
    }
    let r2 = field_set(rbf, "rules"@, ValueModel::Arr(t));
    assert(route_transform_model(rbf, p, platform, tun) == r2);
    let e2 = split_pass_model(d3, p, platform);
    assert(e2 == ValueModel::Obj(field_set(d3f, "route"@, ValueModel::Obj(r2))));
    let e2f = field_set(d3f, "route"@, ValueModel::Obj(r2));
    // the second SOCKS pass takes the old rule out and puts it back
    lemma_field_get_set_other(d3f, "route"@, ValueModel::Obj(r2), "inbounds"@);
    assert(value_get_model(e2, "inbounds"@) == Some(ay));
    lemma_keep_push(list, p_not_socks_inbound(), sock);
    assert(!p_not_socks_inbound()(sock));
    assert forall|i: int| 0 <= i < list.len() implies p_not_socks_inbound()(
        #[trigger] list[i],
    ) by {}
    lemma_keep_all(list, p_not_socks_inbound());
    assert(keep(list.push(sock), p_not_socks_inbound()) == list);
    let e2b = strip_socks_inbounds_model(e2);
    assert(e2b == ValueModel::Obj(field_set(e2f, "inbounds"@, ValueModel::Arr(list))));
    let e2bf = field_set(e2f, "inbounds"@, ValueModel::Arr(list));
    lemma_field_get_set_other(e2f, "inbounds"@, ValueModel::Arr(list), "route"@);
    lemma_field_get_set_same(d3f, "route"@, ValueModel::Obj(r2));
    assert(value_get_model(e2b, "route"@) == Some(ValueModel::Obj(r2)));
    lemma_field_get_set_same(rbf, "rules"@, ValueModel::Arr(t));
    assert(field_get(r2, "rules"@) == Some(ValueModel::Arr(t)));
    // stripping the moved list gives the clean rules back
    lemma_keep_pred(xa, p_not_simple_socks());
    lemma_keep_pred(xb, p_not_simple_socks());
    lemma_keep_add(ka + b + seq![sr], kb, p_not_simple_socks());
    lemma_keep_add(ka + b, seq![sr], p_not_simple_socks());
    lemma_keep_add(ka, b, p_not_simple_socks());
    lemma_keep_all(ka, p_not_simple_socks());
    lemma_keep_all(kb, p_not_simple_socks());
    assert(!p_not_simple_socks()(sr));
    assert(seq![sr].drop_last() =~= Seq::<ValueModel>::empty());
    assert(keep(Seq::<ValueModel>::empty(), p_not_simple_socks()) =~= Seq::<
        ValueModel,
    >::empty());
    assert(keep(seq![sr], p_not_simple_socks()) =~= Seq::<ValueModel>::empty());
    assert(keep(t, p_not_simple_socks()) =~= sk);
    let rteq = field_set(r2, "rules"@, ValueModel::Arr(sk));
    let e2c = strip_socks_rules_model(e2b);
    assert(e2c == ValueModel::Obj(field_set(e2bf, "route"@, ValueModel::Obj(rteq))));
    let e2cf = field_set(e2bf, "route"@, ValueModel::Obj(rteq));
    // the enable phase of run two adds the same inbound and rule back
    lemma_field_get_set_other(e2bf, "route"@, ValueModel::Obj(rteq), "inbounds"@);
    lemma_field_get_set_same(e2f, "inbounds"@, ValueModel::Arr(list));
    assert(value_get_model(e2c, "inbounds"@) == Some(ValueModel::Arr(list)));
    let e2d = add_socks_inbound_model(e2c);
    assert(e2d == ValueModel::Obj(field_set(e2cf, "inbounds"@, ay)));
    let e2df = field_set(e2cf, "inbounds"@, ay);
    lemma_field_get_set_other(e2cf, "inbounds"@, ay, "route"@);
    lemma_field_get_set_same(e2bf, "route"@, ValueModel::Obj(rteq));
    assert(value_get_model(e2d, "route"@) == Some(ValueModel::Obj(rteq)));
    lemma_field_get_set_same(r2, "rules"@, ValueModel::Arr(sk));
    assert(field_get(rteq, "rules"@) == Some(ValueModel::Arr(sk)));
    let e3 = add_socks_rule_model(e2d, out);
    assert(e3 == ValueModel::Obj(
        field_set(
            e2df,
            "route"@,
            ValueModel::Obj(field_set(rteq, "rules"@, ValueModel::Arr(ib))),
        ),
    ));
    lemma_field_set_set(r2, "rules"@, ValueModel::Arr(sk), ValueModel::Arr(ib));
    lemma_field_set_set(rbf, "rules"@, ValueModel::Arr(t), ValueModel::Arr(ib));
    lemma_field_set_set(rf3, "rules"@, ValueModel::Arr(ib), ValueModel::Arr(ib));
    assert(field_set(rteq, "rules"@, ValueModel::Arr(ib)) == rbf) by {
        assert(field_set(rteq, "rules"@, ValueModel::Arr(ib)) == field_set(
            r2,
            "rules"@,
            ValueModel::Arr(ib),
        ));
        assert(field_set(r2, "rules"@, ValueModel::Arr(ib)) == field_set(
            rbf,
            "rules"@,
            ValueModel::Arr(ib),
        ));
        assert(field_set(rbf, "rules"@, ValueModel::Arr(ib)) == field_set(
            rf3,
            "rules"@,
            ValueModel::Arr(ib),
        ));
    }
    // and restoring the first run's values is the identity
    assert(field_get(wf, "inbounds"@) == Some(ay));
    assert(field_get(wf, "route"@) == Some(rb));
    lemma_field_set_restore5(
        wf,
        "route"@,
        "inbounds"@,
        ValueModel::Obj(r2),
        ValueModel::Arr(list),
        ValueModel::Obj(rteq),
    );
    assert(e3 == d3);
    assert(socks_pass_model(e2, p) == e3);
    assert(crate::engine::apply_model(d3, p, platform) == d3);
}

/// The patched pipeline output is a fixed point of the patch.
proof fn lemma_patch_identity_holds(
    doc: ValueModel,
    p: PolicyModel,
    platform: Platform,
    d3: ValueModel,
)
    requires
        p.enabled,
        doc is Obj,
        platform is Windows ==> value_get_model(doc, "route"@) is Some && value_get_model(
            doc,
            "route"@,
        )->Some_0 is Obj,
        ({
            let d1 = platform_patch_model(doc, p.enabled, platform);
            let tun = tun_tag_model(d1);
            let rf1 = route_fields(d1);
            let rr = route_transform_model(rf1, p, platform, tun);
            match value_get_model(d1, "inbounds"@) {
                Some(ValueModel::Arr(items)) => value_get_model(d3, "inbounds"@) == Some(
                    ValueModel::Arr(keep(items, p_not_socks_inbound())),
                ) || value_get_model(d3, "inbounds"@) == Some(
                    ValueModel::Arr(
                        keep(items, p_not_socks_inbound()).push(socks_inbound_model()),
                    ),
                ),
                _ => value_get_model(d3, "inbounds"@) == value_get_model(d1, "inbounds"@)
                    || value_get_model(d3, "inbounds"@) == Some(
                    ValueModel::Arr(
                        Seq::<ValueModel>::empty().push(socks_inbound_model()),
                    ),
                ),
            }
        }),
        ({
            let d1 = platform_patch_model(doc, p.enabled, platform);
            let tun = tun_tag_model(d1);
            let rf1 = route_fields(d1);
            let rr = route_transform_model(rf1, p, platform, tun);
            platform is Windows ==> match value_get_model(d3, "route"@) {
                Some(ValueModel::Obj(rfx)) => field_get(rfx, "auto_detect_interface"@)
                    == field_get(rr, "auto_detect_interface"@),
                _ => true,
            }
        }),
    ensures
        platform_patch_model(d3, p.enabled, platform) == d3,
{
    lemma_key_facts();
    if platform is Linux {
    } else {
        let win = platform is Windows;
        lemma_patched_doc_props(doc, p, platform);
        let d1 = platform_patch_model(doc, p.enabled, platform);
        let tun = tun_tag_model(d1);
        let rf1 = route_fields(d1);
        let rr = route_transform_model(rf1, p, platform, tun);
        // the inbounds of `d3` are fixed points of the patch
        lemma_socks_inbound_props();
        assert(patch_inbound(socks_inbound_model(), win) == socks_inbound_model());
        let fixp = |m: ValueModel| patch_inbound(m, win) == m;
        match value_get_model(d1, "inbounds"@) {
            Some(ValueModel::Arr(items)) => {
                assert(forall|i: int| 0 <= i < items.len() ==> fixp(#[trigger] items[i]));
                lemma_keep_preserves_all(items, p_not_socks_inbound(), fixp);
                let kept = keep(items, p_not_socks_inbound());
                assert(forall|i: int|
                    0 <= i < kept.push(socks_inbound_model()).len() ==> fixp(
                        #[trigger] kept.push(socks_inbound_model())[i],
                    ));
            },
            _ => {},
        }
        // on Windows the route already detects the interface
        if win {
            assert(field_get(rf1, "auto_detect_interface"@) is Some);
            let rf1a = field_set(rf1, "final"@, ValueModel::Str(p.direct_outbound));
            let wants = p.bypass_apps.len() > 0 || p.proxy_apps.len() > 0;
            let rf2m = if wants && field_get(rf1a, "find_process"@) is None {
                field_set(rf1a, "find_process"@, ValueModel::Bool(true))
            } else {
                rf1a
            };
            lemma_field_get_set_other(
                rf1,
                "final"@,
                ValueModel::Str(p.direct_outbound),
                "auto_detect_interface"@,
            );
            if wants && field_get(rf1a, "find_process"@) is None {
                lemma_field_get_set_other(
                    rf1a,
                    "find_process"@,
                    ValueModel::Bool(true),
                    "auto_detect_interface"@,
                );
            }
            let rules0 = match field_get(rf2m, "rules"@) {
                Some(ValueModel::Arr(items)) => items,
                _ => Seq::<ValueModel>::empty(),
            };
            lemma_field_get_set_other(
                rf2m,
                "rules"@,
                ValueModel::Arr(split_rules_model(rules0, p, platform, tun)),
                "auto_detect_interface"@,
            );
            assert(field_get(rr, "auto_detect_interface"@) is Some);
        }
        lemma_patch_identity(d3, p.enabled, platform);
    }
}

/// A rule list of the split pass's own shape, stripped of simple SOCKS
/// rules, is a fixed point of the rule transformation.
#[verifier::rlimit(100)]
#[verifier::spinoff_prover]
proof fn lemma_stripped_split_fix(
    x: Seq<ValueModel>,
    pos: int,
    p: PolicyModel,
    platform: Platform,
    tun: Seq<char>,
)
    requires
        0 <= pos <= x.len(),
        forall|i: int|
            0 <= i < x.len() ==> !is_catch_all(#[trigger] x[i], p.proxy_outbound, tun)
                && !is_generated(x[i], p.proxy_outbound, p.direct_outbound, tun),
        forall|j: int| pos <= j < x.len() ==> !is_action_rule(#[trigger] x[j]),
        pos > 0 ==> is_action_rule(x[pos - 1]),
        exists|i: int| 0 <= i < pos && action_is(#[trigger] x[i], "sniff"@),
        exists|i: int| 0 <= i < pos && action_is(#[trigger] x[i], "hijack-dns"@),
    ensures
        ({
            let ka = keep(x.subrange(0, pos), p_not_simple_socks());
            let kb = keep(x.subrange(pos, x.len() as int), p_not_simple_socks());
            let b = build_block(p, platform, tun);
            split_rules_model(ka + b + kb, p, platform, tun) == ka + b + kb
        }),
{
    lemma_key_facts();
    let proxy = p.proxy_outbound;
    let direct = p.direct_outbound;
    let xa = x.subrange(0, pos);
    let xb = x.subrange(pos, x.len() as int);
    let ka = keep(xa, p_not_simple_socks());
    let kb = keep(xb, p_not_simple_socks());
    let b = build_block(p, platform, tun);
    let nc = |m: ValueModel| !is_catch_all(m, proxy, tun);
    let ng = |m: ValueModel| !is_generated(m, proxy, direct, tun);
    let na = |m: ValueModel| !is_action_rule(m);
    assert(forall|i: int| 0 <= i < xa.len() ==> nc(#[trigger] xa[i]) && ng(xa[i]));
    assert(forall|i: int|
        0 <= i < xb.len() ==> nc(#[trigger] xb[i]) && ng(xb[i]) && na(xb[i]));
    lemma_keep_preserves_all(xa, p_not_simple_socks(), nc);
    lemma_keep_preserves_all(xa, p_not_simple_socks(), ng);
    lemma_keep_preserves_all(xb, p_not_simple_socks(), nc);
    lemma_keep_preserves_all(xb, p_not_simple_socks(), ng);
    lemma_keep_preserves_all(xb, p_not_simple_socks(), na);
    // an action rule is never the simple SOCKS rule
    if pos > 0 {
        assert(xa.last() == x[pos - 1]);
        assert(has_key(xa.last(), "action"@));
        assert(p_not_simple_socks()(xa.last()));
        assert(ka == keep(xa.drop_last(), p_not_simple_socks()).push(xa.last()));
        assert(ka.len() > 0 && ka.last() == x[pos - 1]);
    } else {
        assert(xa.len() == 0);
        assert(ka.len() == 0);
    }
    // the sniff and DNS rules survive the strip
    let isn = choose|i: int| 0 <= i < pos && action_is(#[trigger] x[i], "sniff"@);
    let idn = choose|i: int| 0 <= i < pos && action_is(#[trigger] x[i], "hijack-dns"@);
    assert(xa[isn] == x[isn]);
    assert(has_key(xa[isn], "action"@));
    assert(p_not_simple_socks()(xa[isn]));
    lemma_keep_contains(xa, p_not_simple_socks(), isn);
    assert(xa[idn] == x[idn]);
    assert(has_key(xa[idn], "action"@));
    assert(p_not_simple_socks()(xa[idn]));
    lemma_keep_contains(xa, p_not_simple_socks(), idn);
    let jsn = choose|j: int| 0 <= j < ka.len() && #[trigger] ka[j] == xa[isn];
    let jdn = choose|j: int| 0 <= j < ka.len() && #[trigger] ka[j] == xa[idn];
    let mid = Seq::<ValueModel>::empty();
    let u = ka + mid + kb;
    assert(u[jsn] == ka[jsn]);
    assert(u[jdn] == ka[jdn]);
    assert(action_is(u[jsn], "sniff"@));
    assert(action_is(u[jdn], "hijack-dns"@));
    lemma_split_rules_move(ka, mid, kb, p, platform, tun);
    assert(ka + mid + b + kb =~= ka + b + kb);
    assert(ka + b + mid + kb =~= ka + b + kb);
}

/// The inbound list of a document, or nothing.
pub open spec fn inbounds_list(m: ValueModel) -> Seq<ValueModel> {
    match value_get_model(m, "inbounds"@) {
        Some(ValueModel::Arr(x)) => x,
        _ => Seq::empty(),
    }
}

/// The route object's fields of a document, or nothing.
pub open spec fn route_fields(m: ValueModel) -> Seq<(Seq<char>, ValueModel)> {
    match value_get_model(m, "route"@) {
        Some(ValueModel::Obj(x)) => x,
        _ => Seq::empty(),
    }
}

/// The rule list of a route object, or nothing.
pub open spec fn rules_list(rf: Seq<(Seq<char>, ValueModel)>) -> Seq<ValueModel> {
    match field_get(rf, "rules"@) {
        Some(ValueModel::Arr(x)) => x,
        _ => Seq::empty(),
    }
}

/// The fresh SOCKS inbound carries the SOCKS tag and is no tunnel
/// inbound.
pub proof fn lemma_socks_inbound_props()
    ensures
        is_socks_inbound(socks_inbound_model()),
        !crate::rules::is_tun_inbound(socks_inbound_model()),
{
    lemma_key_facts();
    let fs = seq![
        ("type"@, ValueModel::Str("socks"@)),
        ("tag"@, ValueModel::Str("socks-in"@)),
        ("listen"@, ValueModel::Str("127.0.0.1"@)),
        ("listen_port"@, ValueModel::Int(2080)),
        ("sniff"@, ValueModel::Bool(true)),
    ];
    let t1 = fs.subrange(1, 5);
    assert(t1[0] == fs[1]);
    assert("tag"@ != "type"@);
    assert(field_get(fs, "tag"@) == field_get(t1, "tag"@));
    assert(field_get(fs, "tag"@) == Some(ValueModel::Str("socks-in"@)));
    assert(field_get(fs, "type"@) == Some(ValueModel::Str("socks"@)));
    assert("socks"@ != "tun"@);
}

/// After the removal phase nothing SOCKS-tagged or SOCKS-scoped is left,
/// and running the removal phase again changes nothing.
pub proof fn lemma_socks_strip_props(d: ValueModel)
    ensures
        ({
            let y = strip_socks_rules_model(strip_socks_inbounds_model(d));
            &&& (forall|i: int|
                0 <= i < inbounds_list(y).len() ==> !is_socks_inbound(
                    #[trigger] inbounds_list(y)[i],
                ))
            &&& (forall|i: int|
                0 <= i < rules_list(route_fields(y)).len() ==> !is_simple_socks(
                    #[trigger] rules_list(route_fields(y))[i],
                    "socks-in"@,
                ))
            &&& (d is Obj ==> y is Obj)
            &&& (!(d is Obj) ==> y == d)
            &&& strip_socks_inbounds_model(y) == y
            &&& strip_socks_rules_model(y) == y
        }),
{
    lemma_key_facts();
    let d1 = strip_socks_inbounds_model(d);
    let y = strip_socks_rules_model(d1);
    match d {
        ValueModel::Obj(df) => {
            // the inbound strip
            match value_get_model(d, "inbounds"@) {
                Some(ValueModel::Arr(items)) => {
                    let kept = keep(items, p_not_socks_inbound());
                    assert(d1 == ValueModel::Obj(
                        field_set(df, "inbounds"@, ValueModel::Arr(kept)),
                    ));
                    lemma_field_get_set_same(df, "inbounds"@, ValueModel::Arr(kept));
                    lemma_keep_pred(items, p_not_socks_inbound());
                    assert(inbounds_list(d1) == kept);
                },
                _ => {
                    assert(d1 == d);
                },
            }
            // the rule strip reads the same route as `d1` holds
            let rf1 = route_fields(d1);
            match value_get_model(d1, "route"@) {
                Some(ValueModel::Obj(rf)) => {
                    match field_get(rf, "rules"@) {
                        Some(ValueModel::Arr(rs)) => {
                            let keptr = keep(rs, p_not_simple_socks());
                            let rf2 = field_set(rf, "rules"@, ValueModel::Arr(keptr));
                            assert(y == value_set_model(
                                d1,
                                "route"@,
                                ValueModel::Obj(rf2),
                            ));
                            match d1 {
                                ValueModel::Obj(d1f) => {
                                    lemma_field_get_set_same(
                                        d1f,
                                        "route"@,
                                        ValueModel::Obj(rf2),
                                    );
                                    lemma_field_get_set_other(
                                        d1f,
                                        "route"@,
                                        ValueModel::Obj(rf2),
                                        "inbounds"@,
                                    );
                                    lemma_field_get_set_same(
                                        rf,
                                        "rules"@,
                                        ValueModel::Arr(keptr),
                                    );
                                    lemma_keep_pred(rs, p_not_simple_socks());
                                    assert(route_fields(y) == rf2);
                                    assert(rules_list(rf2) == keptr);
                                    assert(inbounds_list(y) == inbounds_list(d1));
                                    // stripping `y` again: the inbound list is already clean
                                    lemma_strip_noop(y);
                                },
                                _ => {
                                    assert(false);
                                },
                            }
                        },
                        _ => {
                            assert(y == d1);
                            assert(rules_list(route_fields(y)).len() == 0);
                            lemma_strip_noop(y);
                        },
                    }
                },
                _ => {
                    assert(y == d1);
                    assert(rules_list(route_fields(y)).len() == 0);
                    lemma_strip_noop(y);
                },
            }
        },
        _ => {
            assert(d1 == d);
            assert(y == d);
            assert(inbounds_list(y).len() == 0);
            assert(rules_list(route_fields(y)).len() == 0);
        },
    }
}

/// A document whose inbound and rule lists are already clean is a fixed
/// point of the removal phase.
pub proof fn lemma_strip_noop(y: ValueModel)
    requires
        forall|i: int|
            0 <= i < inbounds_list(y).len() ==> !is_socks_inbound(
                #[trigger] inbounds_list(y)[i],
            ),
        forall|i: int|
            0 <= i < rules_list(route_fields(y)).len() ==> !is_simple_socks(
                #[trigger] rules_list(route_fields(y))[i],
                "socks-in"@,
            ),
    ensures
        strip_socks_inbounds_model(y) == y,
        strip_socks_rules_model(y) == y,
{
    lemma_key_facts();
    match value_get_model(y, "inbounds"@) {
        Some(ValueModel::Arr(items)) => {
            assert(inbounds_list(y) == items);
            assert forall|i: int| 0 <= i < items.len() implies p_not_socks_inbound()(
                #[trigger] items[i],
            ) by {}
            lemma_keep_all(items, p_not_socks_inbound());
            match y {
                ValueModel::Obj(yf) => {
                    lemma_field_set_noop(yf, "inbounds"@, ValueModel::Arr(items));
                },
                _ => {
                    assert(false);
                },
            }
        },
        _ => {},
    }
    match value_get_model(y, "route"@) {
        Some(ValueModel::Obj(rf)) => {
            match field_get(rf, "rules"@) {
                Some(ValueModel::Arr(rs)) => {
                    assert(route_fields(y) == rf);
                    assert(rules_list(rf) == rs);
                    assert forall|i: int| 0 <= i < rs.len() implies p_not_simple_socks()(
                        #[trigger] rs[i],
                    ) by {}
                    lemma_keep_all(rs, p_not_simple_socks());
                    match y {
                        ValueModel::Obj(yf) => {
                            lemma_field_set_noop(rf, "rules"@, ValueModel::Arr(rs));
                            lemma_field_set_noop(yf, "route"@, ValueModel::Obj(rf));
                        },
                        _ => {
                            assert(false);
                        },
                    }
                },
                _ => {},
            }
        },
        _ => {},
    }
}

/// Stripping immediately after the enable phase takes back exactly what
/// the enable phase added.
pub proof fn lemma_socks_strip_after_add(y: ValueModel, out: Seq<char>)
    requires
        y is Obj,
        forall|i: int|
            0 <= i < inbounds_list(y).len() ==> !is_socks_inbound(
                #[trigger] inbounds_list(y)[i],
            ),
        forall|i: int|
            0 <= i < rules_list(route_fields(y)).len() ==> !is_simple_socks(
                #[trigger] rules_list(route_fields(y))[i],
                "socks-in"@,
            ),
    ensures
        ({
            let yf = y->Obj_0;
            let ay = ValueModel::Arr(inbounds_list(y).push(socks_inbound_model()));
            let rfy = route_fields(y);
            let rsy = rules_list(rfy);
            let ib = insert_block(
                rsy,
                last_where(rsy, p_is_action()) + 1,
                seq![socks_rule_model("socks-in"@, out)],
            );
            let rb = ValueModel::Obj(field_set(rfy, "rules"@, ValueModel::Arr(ib)));
            let w = add_socks_rule_model(add_socks_inbound_model(y), out);
            &&& w == ValueModel::Obj(
                field_set(field_set(yf, "inbounds"@, ay), "route"@, rb),
            )
            &&& strip_socks_rules_model(strip_socks_inbounds_model(w)) == ValueModel::Obj(
                field_set(
                    field_set(
                        field_set(field_set(yf, "inbounds"@, ay), "route"@, rb),
                        "inbounds"@,
                        ValueModel::Arr(inbounds_list(y)),
                    ),
                    "route"@,
                    ValueModel::Obj(field_set(rfy, "rules"@, ValueModel::Arr(rsy))),
                ),
            )
        }),
{
    lemma_key_facts();
    let yf = y->Obj_0;
    let ky = inbounds_list(y);
    let sock = socks_inbound_model();
    let ay = ValueModel::Arr(ky.push(sock));
    let rfy = route_fields(y);
    let rsy = rules_list(rfy);
    let pos = last_where(rsy, p_is_action()) + 1;
    let sr = socks_rule_model("socks-in"@, out);
    let ib = insert_block(rsy, pos, seq![sr]);
    let rb = ValueModel::Obj(field_set(rfy, "rules"@, ValueModel::Arr(ib)));
    // the enable phase, step by step
    let a1 = add_socks_inbound_model(y);
    assert(a1 == ValueModel::Obj(field_set(yf, "inbounds"@, ay)));
    let a1f = field_set(yf, "inbounds"@, ay);
    lemma_field_get_set_other(yf, "inbounds"@, ay, "route"@);
    assert(field_get(a1f, "route"@) == field_get(yf, "route"@));
    let w = add_socks_rule_model(a1, out);
    assert(w == ValueModel::Obj(field_set(a1f, "route"@, rb)));
    let wf = field_set(a1f, "route"@, rb);
    // the inbound strip takes the SOCKS inbound back out
    lemma_field_get_set_other(a1f, "route"@, rb, "inbounds"@);
    lemma_field_get_set_same(yf, "inbounds"@, ay);
    assert(value_get_model(w, "inbounds"@) == Some(ay));
    lemma_keep_push(ky, p_not_socks_inbound(), sock);
    lemma_socks_inbound_props();
    assert(!p_not_socks_inbound()(sock));
    assert forall|i: int| 0 <= i < ky.len() implies p_not_socks_inbound()(
        #[trigger] ky[i],
    ) by {}
    lemma_keep_all(ky, p_not_socks_inbound());
    assert(keep(ky.push(sock), p_not_socks_inbound()) == ky);
    let w2 = strip_socks_inbounds_model(w);
    assert(w2 == ValueModel::Obj(field_set(wf, "inbounds"@, ValueModel::Arr(ky))));
    let w2f = field_set(wf, "inbounds"@, ValueModel::Arr(ky));
    // the rule strip takes the SOCKS rule back out
    lemma_field_get_set_other(wf, "inbounds"@, ValueModel::Arr(ky), "route"@);
    lemma_field_get_set_same(a1f, "route"@, rb);
    assert(value_get_model(w2, "route"@) == Some(rb));
    let rbf = field_set(rfy, "rules"@, ValueModel::Arr(ib));
    lemma_field_get_set_same(rfy, "rules"@, ValueModel::Arr(ib));
    assert(field_get(rbf, "rules"@) == Some(ValueModel::Arr(ib)));
    crate::seq_util::lemma_last_where(rsy, p_is_action());
    let left = rsy.subrange(0, pos);
    let right = rsy.subrange(pos, rsy.len() as int);
    lemma_keep_add(left + seq![sr], right, p_not_simple_socks());
    lemma_keep_add(left, seq![sr], p_not_simple_socks());
    assert forall|i: int| 0 <= i < left.len() implies p_not_simple_socks()(
        #[trigger] left[i],
    ) by {
        assert(left[i] == rsy[i]);
    }
    assert forall|i: int| 0 <= i < right.len() implies p_not_simple_socks()(
        #[trigger] right[i],
    ) by {
        assert(right[i] == rsy[pos + i]);
    }
    lemma_keep_all(left, p_not_simple_socks());
    lemma_keep_all(right, p_not_simple_socks());
    lemma_socks_rule_props("socks-in"@, out);
    assert(!p_not_simple_socks()(sr));
    assert(seq![sr].drop_last() =~= Seq::<ValueModel>::empty());
    assert(keep(Seq::<ValueModel>::empty(), p_not_simple_socks()) =~= Seq::<
        ValueModel,
    >::empty());
    assert(keep(seq![sr], p_not_simple_socks()) =~= Seq::<ValueModel>::empty());
    assert(keep(ib, p_not_simple_socks()) =~= left + right);
    assert(left + right =~= rsy);
    assert(keep(ib, p_not_simple_socks()) == rsy);
    let w3 = strip_socks_rules_model(w2);
    assert(w3 == ValueModel::Obj(
        field_set(
            w2f,
            "route"@,
            ValueModel::Obj(field_set(rbf, "rules"@, ValueModel::Arr(rsy))),
        ),
    ));
    lemma_field_set_set(rfy, "rules"@, ValueModel::Arr(ib), ValueModel::Arr(rsy));
    assert(field_set(rbf, "rules"@, ValueModel::Arr(rsy)) == field_set(
        rfy,
        "rules"@,
        ValueModel::Arr(rsy),
    ));
}

/// LAW: the SOCKS pass is idempotent.
pub proof fn lemma_socks_pass_idem(d: ValueModel, p: PolicyModel)
    ensures
        socks_pass_model(socks_pass_model(d, p), p) == socks_pass_model(d, p),
{
    lemma_key_facts();
    lemma_socks_strip_props(d);
    let y = strip_socks_rules_model(strip_socks_inbounds_model(d));
    if !p.socks5_enabled {
        assert(socks_pass_model(d, p) == y);
        assert(socks_pass_model(y, p) == y);
    } else {
        let out = socks_outbound(p);
        if y is Obj {
            lemma_socks_strip_after_add(y, out);
            let yf = y->Obj_0;
            let ky = inbounds_list(y);
            let sock = socks_inbound_model();
            let ay = ValueModel::Arr(ky.push(sock));
            let rfy = route_fields(y);
            let rsy = rules_list(rfy);
            let pos = last_where(rsy, p_is_action()) + 1;
            let sr = socks_rule_model("socks-in"@, out);
            let ib = insert_block(rsy, pos, seq![sr]);
            let rb = ValueModel::Obj(field_set(rfy, "rules"@, ValueModel::Arr(ib)));
            let w = add_socks_rule_model(add_socks_inbound_model(y), out);
            let wf = field_set(field_set(yf, "inbounds"@, ay), "route"@, rb);
            assert(w == ValueModel::Obj(wf));
            assert(socks_pass_model(d, p) == w);
            let rb2 = ValueModel::Obj(field_set(rfy, "rules"@, ValueModel::Arr(rsy)));
            let swf = field_set(
                field_set(wf, "inbounds"@, ValueModel::Arr(ky)),
                "route"@,
                rb2,
            );
            let sw = strip_socks_rules_model(strip_socks_inbounds_model(w));
            assert(sw == ValueModel::Obj(swf));
            // the enable phase of the second run adds the same things back
            let a3 = add_socks_inbound_model(sw);
            lemma_field_get_set_other(
                field_set(wf, "inbounds"@, ValueModel::Arr(ky)),
                "route"@,
                rb2,
                "inbounds"@,
            );
            lemma_field_get_set_same(wf, "inbounds"@, ValueModel::Arr(ky));
            assert(value_get_model(sw, "inbounds"@) == Some(ValueModel::Arr(ky)));
            assert(inbounds_list(sw) == ky);
            assert(a3 == ValueModel::Obj(field_set(swf, "inbounds"@, ay)));
            let a3f = field_set(swf, "inbounds"@, ay);
            let run2 = add_socks_rule_model(a3, out);
            lemma_field_get_set_other(swf, "inbounds"@, ay, "route"@);
            lemma_field_get_set_same(
                field_set(wf, "inbounds"@, ValueModel::Arr(ky)),
                "route"@,
                rb2,
            );
            assert(value_get_model(a3, "route"@) == Some(rb2));
            let rf3 = field_set(rfy, "rules"@, ValueModel::Arr(rsy));
            lemma_field_get_set_same(rfy, "rules"@, ValueModel::Arr(rsy));
            assert(field_get(rf3, "rules"@) == Some(ValueModel::Arr(rsy)));
            assert(run2 == ValueModel::Obj(
                field_set(
                    a3f,
                    "route"@,
                    ValueModel::Obj(field_set(rf3, "rules"@, ValueModel::Arr(ib))),
                ),
            ));
            lemma_field_set_set(rfy, "rules"@, ValueModel::Arr(rsy), ValueModel::Arr(ib));
            assert(field_set(rf3, "rules"@, ValueModel::Arr(ib)) == field_set(
                rfy,
                "rules"@,
                ValueModel::Arr(ib),
            ));
            assert(run2 == ValueModel::Obj(field_set(a3f, "route"@, rb)));
            // and restoring the enabled values is the identity
            lemma_field_get_set_other(yf, "inbounds"@, ay, "route"@);
            lemma_field_get_set_same(yf, "inbounds"@, ay);
            lemma_field_get_set_same(field_set(yf, "inbounds"@, ay), "route"@, rb);
            lemma_field_get_set_other(field_set(yf, "inbounds"@, ay), "route"@, rb, "inbounds"@);
            assert(field_get(wf, "inbounds"@) == Some(ay));
            assert(field_get(wf, "route"@) == Some(rb));
            assert("inbounds"@ != "route"@);
            lemma_field_set_restore(wf, "inbounds"@, "route"@, ValueModel::Arr(ky), rb2);
            assert(field_set(a3f, "route"@, rb) == wf);
            assert(run2 == w);
            assert(socks_pass_model(w, p) == run2);
        } else {
            assert(y == d);
            assert(socks_pass_model(d, p) == d);
            assert(socks_pass_model(socks_pass_model(d, p), p) == socks_pass_model(d, p));
        }
    }
}

/// LAW: the SOCKS toggle round trip — enabling and then disabling the
/// SOCKS pass on a document that carries its inbound list and route
/// rules gives exactly the document of disabling alone, and that
/// document holds no SOCKS-tagged inbound and no SOCKS steering rule.
pub proof fn lemma_socks_toggle_round_trip(d: ValueModel, p_on: PolicyModel, p_off: PolicyModel)
    requires
        p_on.socks5_enabled,
        !p_off.socks5_enabled,
        value_get_model(d, "inbounds"@) is Some,
        value_get_model(d, "inbounds"@)->Some_0 is Arr,
        value_get_model(d, "route"@) is Some,
        value_get_model(d, "route"@)->Some_0 is Obj,
        field_get(route_fields(d), "rules"@) is Some,
        field_get(route_fields(d), "rules"@)->Some_0 is Arr,
    ensures
        socks_pass_model(socks_pass_model(d, p_on), p_off) == socks_pass_model(d, p_off),
        forall|i: int|
            0 <= i < inbounds_list(socks_pass_model(d, p_off)).len() ==> !is_socks_inbound(
                #[trigger] inbounds_list(socks_pass_model(d, p_off))[i],
            ),
        forall|i: int|
            0 <= i < rules_list(route_fields(socks_pass_model(d, p_off))).len()
                ==> !is_simple_socks(
                #[trigger] rules_list(route_fields(socks_pass_model(d, p_off)))[i],
                "socks-in"@,
            ),
{
    lemma_key_facts();
    lemma_socks_strip_props(d);
    let y = strip_socks_rules_model(strip_socks_inbounds_model(d));
    assert(socks_pass_model(d, p_off) == y);
    let df = d->Obj_0;
    let items = value_get_model(d, "inbounds"@)->Some_0->Arr_0;
    let rf = value_get_model(d, "route"@)->Some_0->Obj_0;
    let rs = field_get(rf, "rules"@)->Some_0->Arr_0;
    let ki = keep(items, p_not_socks_inbound());
    let kr = keep(rs, p_not_simple_socks());
    let d1f = field_set(df, "inbounds"@, ValueModel::Arr(ki));
    assert(strip_socks_inbounds_model(d) == ValueModel::Obj(d1f));
    lemma_field_get_set_other(df, "inbounds"@, ValueModel::Arr(ki), "route"@);
    assert(field_get(d1f, "route"@) == Some(ValueModel::Obj(rf)));
    let rf2 = field_set(rf, "rules"@, ValueModel::Arr(kr));
    let yf = field_set(d1f, "route"@, ValueModel::Obj(rf2));
    assert(y == ValueModel::Obj(yf));
    // the keys the toggle writes are present in `y`, with these values
    lemma_field_get_set_other(d1f, "route"@, ValueModel::Obj(rf2), "inbounds"@);
    lemma_field_get_set_same(df, "inbounds"@, ValueModel::Arr(ki));
    assert(field_get(yf, "inbounds"@) == Some(ValueModel::Arr(ki)));
    lemma_field_get_set_same(d1f, "route"@, ValueModel::Obj(rf2));
    assert(field_get(yf, "route"@) == Some(ValueModel::Obj(rf2)));
    assert(inbounds_list(y) == ki);
    assert(route_fields(y) == rf2);
    lemma_field_get_set_same(rf, "rules"@, ValueModel::Arr(kr));
    assert(rules_list(rf2) == kr);
    // enable, then strip back
    let out = socks_outbound(p_on);
    lemma_socks_strip_after_add(y, out);
    let ky = inbounds_list(y);
    let sock = socks_inbound_model();
    let ay = ValueModel::Arr(ky.push(sock));
    let rfy = route_fields(y);
    let rsy = rules_list(rfy);
    let pos = last_where(rsy, p_is_action()) + 1;
    let sr = socks_rule_model("socks-in"@, out);
    let ib = insert_block(rsy, pos, seq![sr]);
    let rb = ValueModel::Obj(field_set(rfy, "rules"@, ValueModel::Arr(ib)));
    let w = add_socks_rule_model(add_socks_inbound_model(y), out);
    assert(socks_pass_model(d, p_on) == w);
    let sw = strip_socks_rules_model(strip_socks_inbounds_model(w));
    assert(socks_pass_model(w, p_off) == sw);
    lemma_field_set_noop(rf2, "rules"@, ValueModel::Arr(kr));
    assert(field_set(rfy, "rules"@, ValueModel::Arr(rsy)) == rf2);
    lemma_field_set_restore(yf, "inbounds"@, "route"@, ay, rb);
    assert(sw == y);
}

/// The platform patch leaves each inbound's kind and tag readable
/// unchanged, so the tunnel tag is stable under it.
pub proof fn lemma_patch_keeps_tun_tag(items: Seq<ValueModel>, win: bool)
    ensures
        crate::rules::tun_tag_of_inbounds(
            items.map_values(|m: ValueModel| patch_inbound(m, win)),
        ) == crate::rules::tun_tag_of_inbounds(items),
    decreases items.len(),
{
    lemma_key_facts();
    let f = |m: ValueModel| patch_inbound(m, win);
    let mapped = items.map_values(f);
    if items.len() > 0 {
        let h = items[0];
        let h2 = mapped[0];
        assert(h2 == f(h));
        if is_tun_inbound(h) {
            match h {
                ValueModel::Obj(hf) => {
                    if win {
                        lemma_field_get_set_other(
                            hf,
                            "stack"@,
                            ValueModel::Str("system"@),
                            "type"@,
                        );
                        lemma_field_get_set_other(
                            hf,
                            "stack"@,
                            ValueModel::Str("system"@),
                            "tag"@,
                        );
                    } else {
                        lemma_field_get_remove_other(hf, "interface_name"@, "type"@);
                        lemma_field_get_remove_other(hf, "interface_name"@, "tag"@);
                    }
                    assert(is_tun_inbound(h2));
                    assert(value_get_model(h2, "tag"@) == value_get_model(h, "tag"@));
                },
                _ => {
                    assert(false);
                },
            }
        } else {
            assert(h2 == h);
        }
        let rest = items.subrange(1, items.len() as int);
        lemma_patch_keeps_tun_tag(rest, win);
        assert(mapped.subrange(1, mapped.len() as int) =~= rest.map_values(f));
    } else {
        assert(mapped.len() == 0);
    }
}

/// Removing SOCKS-tagged inbounds does not change the tunnel tag, as
/// long as the tunnel inbound itself is not tagged as the SOCKS
/// listener.
pub proof fn lemma_strip_keeps_tun_tag(items: Seq<ValueModel>)
    requires
        crate::rules::tun_tag_of_inbounds(items) != "socks-in"@,
    ensures
        crate::rules::tun_tag_of_inbounds(keep(items, p_not_socks_inbound()))
            == crate::rules::tun_tag_of_inbounds(items),
    decreases items.len(),
{
    if items.len() > 0 {
        let h = items[0];
        let rest = items.subrange(1, items.len() as int);
        lemma_keep_front(items, p_not_socks_inbound());
        if is_tun_inbound(h) {
            assert(!is_socks_inbound(h)) by {
                match value_get_model(h, "tag"@) {
                    Some(t) => {
                        if t is Str {
                            assert(crate::rules::tun_tag_of_inbounds(items) == t->Str_0);
                        }
                    },
                    None => {},
                }
            }
            let kept = seq![h] + keep(rest, p_not_socks_inbound());
            assert(keep(items, p_not_socks_inbound()) == kept);
            assert(kept[0] == h);
            assert(crate::rules::tun_tag_of_inbounds(kept)
                == crate::rules::tun_tag_of_inbounds(items));
        } else {
            assert(crate::rules::tun_tag_of_inbounds(items)
                == crate::rules::tun_tag_of_inbounds(rest));
            lemma_strip_keeps_tun_tag(rest);
            if p_not_socks_inbound()(h) {
                let kept = seq![h] + keep(rest, p_not_socks_inbound());
                assert(keep(items, p_not_socks_inbound()) == kept);
                assert(kept[0] == h);
                assert(kept.subrange(1, kept.len() as int) =~= keep(
                    rest,
                    p_not_socks_inbound(),
                ));
            }
        }
    }
}

/// Appending an inbound that is no tunnel inbound does not change the
/// tunnel tag.
pub proof fn lemma_push_keeps_tun_tag(items: Seq<ValueModel>, x: ValueModel)
    requires
        !is_tun_inbound(x),
    ensures
        crate::rules::tun_tag_of_inbounds(items.push(x)) == crate::rules::tun_tag_of_inbounds(
            items,
        ),
    decreases items.len(),
{
    let pushed = items.push(x);
    if items.len() == 0 {
        assert(pushed[0] == x);
        assert(pushed.subrange(1, pushed.len() as int) =~= Seq::<ValueModel>::empty());
        assert(crate::rules::tun_tag_of_inbounds(Seq::<ValueModel>::empty()) == "tun-in"@);
        assert(crate::rules::tun_tag_of_inbounds(pushed)
            == crate::rules::tun_tag_of_inbounds(
            pushed.subrange(1, pushed.len() as int),
        ));
    } else {
        assert(pushed[0] == items[0]);
        if is_tun_inbound(items[0]) {
            assert(is_tun_inbound(pushed[0]));
            assert(value_get_model(pushed[0], "tag"@) == value_get_model(items[0], "tag"@));
        } else {
            let rest = items.subrange(1, items.len() as int);
            lemma_push_keeps_tun_tag(rest, x);
            assert(pushed.subrange(1, pushed.len() as int) =~= rest.push(x));
        }
    }
}

/// The split pass applied `n` times in a row.
pub open spec fn split_pass_iter(
    n: nat,
    doc: ValueModel,
    p: PolicyModel,
    platform: Platform,
) -> ValueModel
    decreases n,
{
    if n == 0 {
        doc
    } else {
        split_pass_model(split_pass_iter((n - 1) as nat, doc, p, platform), p, platform)
    }
}

/// The number of route rules of a document.
pub open spec fn rule_count_model(doc: ValueModel) -> nat {
    match value_get_model(doc, "route"@) {
        Some(ValueModel::Obj(rf)) => match field_get(rf, "rules"@) {
            Some(ValueModel::Arr(rs)) => rs.len(),
            _ => 0,
        },
        _ => 0,
    }
}

/// LAW: rule-count stability — applying the split pass any number of
/// times with an unchanged policy gives the very document, and so the
/// very rule count, of applying it once.
pub proof fn lemma_split_iter_stable(
    n: nat,
    doc: ValueModel,
    p: PolicyModel,
    platform: Platform,
)
    requires
        n >= 1,
    ensures
        split_pass_iter(n, doc, p, platform) == split_pass_model(doc, p, platform),
        rule_count_model(split_pass_iter(n, doc, p, platform)) == rule_count_model(
            split_pass_model(doc, p, platform),
        ),
    decreases n,
{
    if n == 1 {
        assert(split_pass_iter(0, doc, p, platform) == doc);
        assert(split_pass_iter(1, doc, p, platform) == split_pass_model(doc, p, platform));
    } else {
        lemma_split_iter_stable((n - 1) as nat, doc, p, platform);
        lemma_split_pass_idem(doc, p, platform);
        assert(split_pass_iter(n, doc, p, platform) == split_pass_model(
            split_pass_iter((n - 1) as nat, doc, p, platform),
            p,
            platform,
        ));
    }
}

/// LAW: bypass precedence — when an app is bypassed by name and domains
/// are proxied, the split pass places the bypass-by-name rule before the
/// proxy-by-domain rule, so under first-match routing the bypass wins
/// for traffic matching both.
pub proof fn lemma_bypass_precedence(
    rules: Seq<ValueModel>,
    p: PolicyModel,
    platform: Platform,
    tun: Seq<char>,
)
    requires
        collect_names(p.bypass_apps, platform).len() > 0,
        clean_list(p.proxy_domains).len() > 0,
    ensures
        exists|i: int, j: int|
            0 <= i < j < split_rules_model(rules, p, platform, tun).len()
                && #[trigger] split_rules_model(rules, p, platform, tun)[i]
                == steering_rule_model(
                tun,
                "process_name"@,
                collect_names(p.bypass_apps, platform),
                p.direct_outbound,
            ) && #[trigger] split_rules_model(rules, p, platform, tun)[j]
                == steering_rule_model(
                tun,
                "domain_suffix"@,
                clean_list(p.proxy_domains),
                p.proxy_outbound,
            ),
{
    let proxy = p.proxy_outbound;
    let direct = p.direct_outbound;
    let cleaned = strip_generated(
        strip_catch_all(ensure_dns(ensure_sniff(rules, tun)), proxy, tun),
        proxy,
        direct,
        tun,
    );
    let pos = last_where(cleaned, p_is_action()) + 1;
    crate::seq_util::lemma_last_where(cleaned, p_is_action());
    let b = build_block(p, platform, tun);
    let s = insert_block(cleaned, pos, b);
    assert(s == split_rules_model(rules, p, platform, tun));
    let part1 = maybe_rule(
        tun,
        "process_path"@,
        collect_paths(p.bypass_apps, platform),
        direct,
    );
    let part2 = maybe_rule(
        tun,
        "process_name"@,
        collect_names(p.bypass_apps, platform),
        direct,
    );
    let part3 = maybe_rule(tun, "domain_suffix"@, clean_list(p.bypass_domains), direct);
    let part4 = maybe_rule(tun, "process_path"@, collect_paths(p.proxy_apps, platform), proxy);
    let part5 = maybe_rule(tun, "process_name"@, collect_names(p.proxy_apps, platform), proxy);
    let part6 = maybe_rule(tun, "domain_suffix"@, clean_list(p.proxy_domains), proxy);
    let l1 = part1.len() as int;
    let l5 = l1 + part2.len() + part3.len() + part4.len() + part5.len();
    assert(part2.len() == 1);
    assert(part6.len() == 1);
    assert(b[l1] == part2[0]);
    assert(b[l5] == part6[0]);
    let i = pos + l1;
    let j = pos + l5;
    assert(cleaned.subrange(0, pos).len() == pos);
    assert(s[i] == b[l1]);
    assert(s[j] == b[l5]);
    assert(0 <= i < j < s.len());
}

} // verus!
