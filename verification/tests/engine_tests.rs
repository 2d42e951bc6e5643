use ultunnel_policy::engine::apply;
use ultunnel_policy::legacy::legacy_pass;
use ultunnel_policy::patch::platform_patch;
use ultunnel_policy::socks::socks_pass;
use ultunnel_policy::split::split_pass;
use ultunnel_policy::value::value_get;
use ultunnel_policy::Platform;
use ultunnel_policy::Policy;
use ultunnel_policy::Value;

fn s(x: &str) -> String {
    String::from(x)
}

fn sv(x: &str) -> Value {
    Value::Str(s(x))
}

fn obj(fields: Vec<(&str, Value)>) -> Value {
    Value::Obj(fields.into_iter().map(|(k, v)| (s(k), v)).collect())
}

fn tag_arr(tag: &str) -> Value {
    Value::Arr(vec![sv(tag)])
}

fn str_arr(items: Vec<&str>) -> Value {
    Value::Arr(items.into_iter().map(sv).collect())
}

fn base_doc() -> Value {
    obj(vec![
        ("inbounds", Value::Arr(vec![obj(vec![
            ("type", sv("tun")),
            ("tag", sv("tun-in")),
            ("interface_name", sv("utun9")),
        ])])),
        ("outbounds", Value::Arr(vec![
            obj(vec![("type", sv("socks")), ("tag", sv("proxy"))]),
            obj(vec![("type", sv("direct")), ("tag", sv("direct"))]),
        ])),
        ("route", obj(vec![("rules", Value::Arr(vec![]))])),
    ])
}

fn policy_split(proxy_apps: Vec<&str>) -> Policy {
    let mut p = Policy::new();
    p.enabled = true;
    p.proxy_apps = proxy_apps.into_iter().map(s).collect();
    p
}

fn get<'a>(v: &'a Value, key: &str) -> &'a Value {
    value_get(v, key).expect(key)
}

fn rules(doc: &Value) -> &Vec<Value> {
    match get(get(doc, "route"), "rules") {
        Value::Arr(items) => items,
        other => panic!("rules is not an array: {:?}", other),
    }
}

fn inbounds(doc: &Value) -> &Vec<Value> {
    match get(doc, "inbounds") {
        Value::Arr(items) => items,
        other => panic!("inbounds is not an array: {:?}", other),
    }
}

#[test]
fn scenario_one_proxy_app() {
    let doc = base_doc();
    let p = policy_split(vec!["curl"]);
    let out = apply(doc, &p, Platform::Linux);
    assert_eq!(get(get(&out, "route"), "final"), &sv("direct"));
    let rs = rules(&out);
    assert_eq!(get(&rs[0], "action"), &sv("sniff"));
    assert_eq!(get(&rs[1], "action"), &sv("hijack-dns"));
    assert_eq!(
        rs[2],
        obj(vec![
            ("inbound", tag_arr("tun-in")),
            ("process_name", str_arr(vec!["curl"])),
            ("outbound", sv("proxy")),
        ])
    );
    assert_eq!(rs.len(), 3);
}

#[test]
fn catch_all_is_removed() {
    let catch_all = obj(vec![("inbound", tag_arr("tun-in")), ("outbound", sv("proxy"))]);
    let mut doc = base_doc();
    if let Value::Obj(ref mut fields) = doc {
        fields[2].1 = obj(vec![("rules", Value::Arr(vec![catch_all.deep_copy()]))]);
    }
    let p = policy_split(vec![]);
    let out = split_pass(doc, &p, Platform::Linux);
    assert_eq!(get(get(&out, "route"), "final"), &sv("direct"));
    assert!(!rules(&out).contains(&catch_all));
}

#[test]
fn conditional_rule_with_proxy_outbound_is_kept() {
    let conditional = obj(vec![
        ("inbound", tag_arr("tun-in")),
        ("port", Value::Arr(vec![Value::Int(53)])),
        ("outbound", sv("proxy")),
    ]);
    let mut doc = base_doc();
    if let Value::Obj(ref mut fields) = doc {
        fields[2].1 = obj(vec![("rules", Value::Arr(vec![conditional.deep_copy()]))]);
    }
    let p = policy_split(vec![]);
    let out = split_pass(doc, &p, Platform::Linux);
    assert!(rules(&out).contains(&conditional));
}

#[test]
fn split_pass_disabled_leaves_document_alone() {
    let doc = base_doc();
    let p = policy_split(vec!["curl"]);
    let mut off = p;
    off.enabled = false;
    let out = split_pass(doc.deep_copy(), &off, Platform::Linux);
    assert_eq!(out, doc);
}

#[test]
fn apply_twice_equals_apply_once() {
    let mut p = policy_split(vec!["curl", "ssh"]);
    p.bypass_apps = vec![s("Spotify")];
    p.proxy_domains = vec![s("example.org")];
    p.socks5_enabled = true;
    let once = apply(base_doc(), &p, Platform::Windows);
    let twice = apply(once.deep_copy(), &p, Platform::Windows);
    assert_eq!(twice, once);
}

#[test]
fn split_pass_rule_count_is_stable() {
    let mut p = policy_split(vec!["curl"]);
    p.bypass_domains = vec![s("lan.local")];
    let once = split_pass(base_doc(), &p, Platform::MacOs);
    let n1 = rules(&once).len();
    let thrice = split_pass(
        split_pass(once.deep_copy(), &p, Platform::MacOs),
        &p,
        Platform::MacOs,
    );
    assert_eq!(rules(&thrice).len(), n1);
    assert_eq!(thrice, once);
}

#[test]
fn bypass_rule_precedes_proxy_domain_rule() {
    let mut p = policy_split(vec!["app"]);
    p.bypass_apps = vec![s("app")];
    p.proxy_domains = vec![s("example.com")];
    let out = split_pass(base_doc(), &p, Platform::Linux);
    let rs = rules(&out);
    let bypass_name = obj(vec![
        ("inbound", tag_arr("tun-in")),
        ("process_name", str_arr(vec!["app"])),
        ("outbound", sv("direct")),
    ]);
    let proxy_domain = obj(vec![
        ("inbound", tag_arr("tun-in")),
        ("domain_suffix", str_arr(vec!["example.com"])),
        ("outbound", sv("proxy")),
    ]);
    let i = rs.iter().position(|r| r == &bypass_name).expect("bypass rule");
    let j = rs.iter().position(|r| r == &proxy_domain).expect("proxy domain rule");
    assert!(i < j);
}

#[test]
fn socks_toggle_round_trip() {
    let mut on = Policy::new();
    on.socks5_enabled = true;
    let off = Policy::new();
    let enabled = socks_pass(base_doc(), &on);
    let back = socks_pass(enabled, &off);
    let straight = socks_pass(base_doc(), &off);
    assert_eq!(back, straight);
    for ib in inbounds(&back) {
        assert_ne!(value_get(ib, "tag"), Some(&sv("socks-in")));
    }
}

#[test]
fn socks_enable_adds_inbound_and_rule() {
    let mut on = Policy::new();
    on.socks5_enabled = true;
    let out = socks_pass(base_doc(), &on);
    let ibs = inbounds(&out);
    let last = &ibs[ibs.len() - 1];
    assert_eq!(get(last, "type"), &sv("socks"));
    assert_eq!(get(last, "tag"), &sv("socks-in"));
    assert_eq!(get(last, "listen"), &sv("127.0.0.1"));
    assert_eq!(get(last, "listen_port"), &Value::Int(2080));
    assert_eq!(get(last, "sniff"), &Value::Bool(true));
    let rs = rules(&out);
    assert!(rs.contains(&obj(vec![
        ("inbound", tag_arr("socks-in")),
        ("outbound", sv("proxy")),
    ])));
}

#[test]
fn socks_blank_proxy_outbound_falls_back() {
    let mut on = Policy::new();
    on.socks5_enabled = true;
    on.proxy_outbound = s("");
    let out = socks_pass(base_doc(), &on);
    assert!(rules(&out).contains(&obj(vec![
        ("inbound", tag_arr("socks-in")),
        ("outbound", sv("proxy")),
    ])));
}

#[test]
fn socks_pass_is_idempotent() {
    let mut on = Policy::new();
    on.socks5_enabled = true;
    let once = socks_pass(base_doc(), &on);
    let twice = socks_pass(once.deep_copy(), &on);
    assert_eq!(twice, once);
}

#[test]
fn macos_patch_removes_interface_name() {
    let out = platform_patch(base_doc(), true, Platform::MacOs);
    let ib = &inbounds(&out)[0];
    assert_eq!(value_get(ib, "interface_name"), None);
    assert_eq!(get(ib, "type"), &sv("tun"));
}

#[test]
fn windows_patch_forces_system_stack_and_auto_detect() {
    let out = platform_patch(base_doc(), true, Platform::Windows);
    let ib = &inbounds(&out)[0];
    assert_eq!(get(ib, "stack"), &sv("system"));
    assert_eq!(get(get(&out, "route"), "auto_detect_interface"), &Value::Bool(true));
}

#[test]
fn windows_patch_keeps_existing_auto_detect() {
    let mut doc = base_doc();
    if let Value::Obj(ref mut fields) = doc {
        fields[2].1 = obj(vec![("auto_detect_interface", Value::Bool(false))]);
    }
    let out = platform_patch(doc, true, Platform::Windows);
    assert_eq!(get(get(&out, "route"), "auto_detect_interface"), &Value::Bool(false));
}

#[test]
fn linux_patch_changes_nothing() {
    let doc = base_doc();
    let out = platform_patch(doc.deep_copy(), true, Platform::Linux);
    assert_eq!(out, doc);
}

#[test]
fn patch_disabled_changes_nothing() {
    let doc = base_doc();
    let out = platform_patch(doc.deep_copy(), false, Platform::MacOs);
    assert_eq!(out, doc);
}

#[test]
fn legacy_rule_is_prepended_raw() {
    let mut p = Policy::new();
    p.legacy_enabled = true;
    p.legacy_processes = vec![s(" Game.exe "), s("tool")];
    let out = legacy_pass(base_doc(), &p, Platform::Windows);
    let rs = rules(&out);
    assert_eq!(
        rs[0],
        obj(vec![
            ("process_name", str_arr(vec![" Game.exe ", "tool"])),
            ("outbound", sv("proxy")),
        ])
    );
}

#[test]
fn legacy_pass_accumulates_on_repeat() {
    let mut p = Policy::new();
    p.legacy_enabled = true;
    p.legacy_processes = vec![s("tool")];
    let once = legacy_pass(base_doc(), &p, Platform::Windows);
    let twice = legacy_pass(once.deep_copy(), &p, Platform::Windows);
    assert_eq!(rules(&twice).len(), rules(&once).len() + 1);
    assert_eq!(rules(&twice)[0], rules(&twice)[1]);
}

#[test]
fn legacy_pass_is_windows_only() {
    let mut p = Policy::new();
    p.legacy_enabled = true;
    p.legacy_processes = vec![s("tool")];
    let doc = base_doc();
    let out = legacy_pass(doc.deep_copy(), &p, Platform::MacOs);
    assert_eq!(out, doc);
}

#[test]
fn tunnel_tag_is_read_from_document() {
    let doc = obj(vec![
        ("inbounds", Value::Arr(vec![obj(vec![
            ("type", sv("tun")),
            ("tag", sv("utun-main")),
        ])])),
        ("route", obj(vec![("rules", Value::Arr(vec![]))])),
    ]);
    let p = policy_split(vec!["curl"]);
    let out = split_pass(doc, &p, Platform::Linux);
    let rs = rules(&out);
    assert_eq!(
        rs[2],
        obj(vec![
            ("inbound", tag_arr("utun-main")),
            ("process_name", str_arr(vec!["curl"])),
            ("outbound", sv("proxy")),
        ])
    );
}

#[test]
fn missing_route_is_created() {
    let doc = obj(vec![("inbounds", Value::Arr(vec![]))]);
    let p = policy_split(vec!["curl"]);
    let out = split_pass(doc, &p, Platform::Linux);
    assert_eq!(get(get(&out, "route"), "final"), &sv("direct"));
    assert_eq!(rules(&out).len(), 3);
}

#[test]
fn malformed_route_is_replaced() {
    let doc = obj(vec![("route", sv("garbage"))]);
    let p = policy_split(vec![]);
    let out = split_pass(doc, &p, Platform::Linux);
    assert_eq!(get(get(&out, "route"), "final"), &sv("direct"));
}

#[test]
fn find_process_is_filled_only_when_needed() {
    let p = policy_split(vec!["curl"]);
    let out = split_pass(base_doc(), &p, Platform::Linux);
    assert_eq!(get(get(&out, "route"), "find_process"), &Value::Bool(true));
    let p2 = policy_split(vec![]);
    let out2 = split_pass(base_doc(), &p2, Platform::Linux);
    assert_eq!(value_get(get(&out2, "route"), "find_process"), None);
    let mut doc3 = base_doc();
    if let Value::Obj(ref mut fields) = doc3 {
        fields[2].1 = obj(vec![("find_process", Value::Bool(false))]);
    }
    let out3 = split_pass(doc3, &p, Platform::Linux);
    assert_eq!(get(get(&out3, "route"), "find_process"), &Value::Bool(false));
}

#[test]
fn unknown_fields_pass_through() {
    let mut doc = base_doc();
    if let Value::Obj(ref mut fields) = doc {
        fields.push((s("experimental"), obj(vec![("x", Value::Int(1))])));
        fields.push((s("log"), Value::Null));
    }
    let p = policy_split(vec!["curl"]);
    let out = apply(doc, &p, Platform::Linux);
    assert_eq!(get(&out, "experimental"), &obj(vec![("x", Value::Int(1))]));
    assert_eq!(get(&out, "log"), &Value::Null);
}

#[test]
fn existing_action_rules_are_not_duplicated() {
    let user_sniff = obj(vec![("inbound", tag_arr("tun-in")), ("action", sv("sniff"))]);
    let user_dns = obj(vec![("protocol", sv("dns")), ("action", sv("hijack-dns"))]);
    let mut doc = base_doc();
    if let Value::Obj(ref mut fields) = doc {
        fields[2].1 = obj(vec![(
            "rules",
            Value::Arr(vec![user_sniff.deep_copy(), user_dns.deep_copy()]),
        )]);
    }
    let p = policy_split(vec!["curl"]);
    let out = split_pass(doc, &p, Platform::Linux);
    let rs = rules(&out);
    assert_eq!(rs.len(), 3);
    assert_eq!(rs[0], user_sniff);
    assert_eq!(rs[1], user_dns);
}

#[test]
fn dns_rule_is_inserted_right_after_the_sniff_rule() {
    let user_rule = obj(vec![("network", sv("udp")), ("outbound", sv("direct"))]);
    let user_sniff = obj(vec![("inbound", tag_arr("tun-in")), ("action", sv("sniff"))]);
    let mut doc = base_doc();
    if let Value::Obj(ref mut fields) = doc {
        fields[2].1 = obj(vec![(
            "rules",
            Value::Arr(vec![user_rule.deep_copy(), user_sniff.deep_copy()]),
        )]);
    }
    let p = policy_split(vec![]);
    let out = split_pass(doc, &p, Platform::Linux);
    let rs = rules(&out);
    assert_eq!(rs[0], user_rule);
    assert_eq!(rs[1], user_sniff);
    assert_eq!(get(&rs[2], "action"), &sv("hijack-dns"));
}

#[test]
fn user_socks_rule_is_removed_even_when_disabled() {
    let stale = obj(vec![("inbound", tag_arr("socks-in")), ("outbound", sv("proxy"))]);
    let mut doc = base_doc();
    if let Value::Obj(ref mut fields) = doc {
        fields[2].1 = obj(vec![("rules", Value::Arr(vec![stale.deep_copy()]))]);
    }
    let out = socks_pass(doc, &Policy::new());
    assert!(!rules(&out).contains(&stale));
}

#[test]
fn blank_outbound_fallback_is_socks_only() {
    let mut p = policy_split(vec!["curl"]);
    p.proxy_outbound = s("");
    p.socks5_enabled = true;
    let out = apply(base_doc(), &p, Platform::Linux);
    let rs = rules(&out);
    // the split rule keeps the configured tag even when blank
    assert!(rs.contains(&obj(vec![
        ("inbound", tag_arr("tun-in")),
        ("process_name", str_arr(vec!["curl"])),
        ("outbound", sv("")),
    ])));
    // the SOCKS rule falls back to the literal default
    assert!(rs.contains(&obj(vec![
        ("inbound", tag_arr("socks-in")),
        ("outbound", sv("proxy")),
    ])));
}

#[test]
fn odd_numbers_pass_through_as_text() {
    let mut doc = base_doc();
    if let Value::Obj(ref mut fields) = doc {
        fields.push((s("sample_rate"), Value::Num(s("0.25"))));
    }
    let p = policy_split(vec!["curl"]);
    let out = apply(doc, &p, Platform::Linux);
    assert_eq!(get(&out, "sample_rate"), &Value::Num(s("0.25")));
}

#[test]
fn apply_twice_with_user_rules_equals_once() {
    let mut doc = base_doc();
    if let Value::Obj(ref mut fields) = doc {
        fields[2].1 = obj(vec![(
            "rules",
            Value::Arr(vec![
                obj(vec![("inbound", tag_arr("tun-in")), ("outbound", sv("proxy"))]),
                obj(vec![("network", sv("udp")), ("outbound", sv("direct"))]),
                obj(vec![("inbound", tag_arr("socks-in")), ("outbound", sv("block"))]),
            ]),
        )]);
    }
    let mut p = policy_split(vec!["curl"]);
    p.bypass_apps = vec![s("spotify")];
    p.socks5_enabled = true;
    let once = apply(doc, &p, Platform::MacOs);
    let twice = apply(once.deep_copy(), &p, Platform::MacOs);
    assert_eq!(twice, once);
}
