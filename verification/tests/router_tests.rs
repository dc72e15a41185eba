use rsfly::router::{
    addr_is_loopback, glob_pattern, group_has_match, is_direct, is_match, rule_has_match,
    Disposition, Router,
};
use rsfly::settings::{
    default_direct, default_scheme, get_config, get_server_list, is_mode_default_proxy, validate,
    AppContext, Config, ConfigError, CoreConfig, DefaultMode, PatternGroup, Rule, ServerInfo,
};
use rsfly::transfer::{transfer, Transfer};
use rsfly::trojan_util::{DialPlan, TrojanError, TrojanUtil};

fn server(index: u16, scheme: &str) -> ServerInfo {
    ServerInfo {
        scheme: scheme.to_string(),
        port: 443,
        query: default_scheme(),
        host: format!("node{index}.example.net"),
        name: format!("node {index}"),
        key: format!("key{index}"),
        sni: format!("sni{index}.example.net"),
        index,
    }
}

fn pool(size: u16) -> Config {
    Config { list: (1..=size).map(|i| server(i, "trojan")).collect(), update_time: String::new() }
}

fn group(label: &str, patterns: &[&str]) -> PatternGroup {
    PatternGroup {
        label: label.to_string(),
        patterns: patterns.iter().map(|p| p.to_string()).collect(),
    }
}

fn settings(mode: DefaultMode, direct: Vec<PatternGroup>, proxy: Vec<Rule>) -> CoreConfig {
    CoreConfig {
        socks_bind: "127.0.0.1:1080".to_string(),
        http_bind: "127.0.0.1:8080".to_string(),
        default_mode: mode,
        select: vec![1],
        proxy,
        direct,
    }
}

fn router(mode: DefaultMode, direct: Vec<PatternGroup>, proxy: Vec<Rule>) -> Router {
    match Router::get_factory(settings(mode, direct, proxy), pool(3)) {
        Ok(router) => router,
        Err(e) => panic!("{e:?}"),
    }
}

fn direct(label: &str) -> Disposition<'static> {
    Disposition::Direct { label: label.to_string() }
}

fn ai_rule() -> Rule {
    Rule { select: vec![2], other: vec![group("ai", &["*.openai.com"])] }
}

#[test]
fn patterns_without_star_match_exactly() {
    assert!(is_match("example.com", "example.com"));
    assert!(!is_match("example.com", "Example.com"));
    assert!(!is_match("example.com", "www.example.com"));
    assert!(!is_match("example.com", "example.com."));
    assert!(!is_match("a.c", "abc"));
    assert!(is_match("", ""));
    assert!(!is_match("", "a"));
}

#[test]
fn patterns_with_star_match_the_whole_host() {
    assert!(is_match("*.openai.com", "api.openai.com"));
    assert!(is_match("*.openai.com", "a.b.openai.com"));
    assert!(is_match("*.openai.com", ".openai.com"));
    assert!(!is_match("*.openai.com", "openai.com"));
    assert!(!is_match("*.openai.com", "api.openai.com.evil.net"));
    assert!(!is_match("*.openai.com", "api.openaiXcom"));
    assert!(!is_match("*.openai.com", "api.OpenAI.com"));
    assert!(is_match("192.168.*", "192.168.1.5"));
    assert!(!is_match("192.168.*", "10.0.0.1"));
    assert!(!is_match("192.168.*", "192x168.1.5"));
    assert!(is_match("*", ""));
    assert!(is_match("*", "anything"));
    assert!(is_match("a*b*c", "abc"));
    assert!(is_match("a*b*c", "a--b--c"));
    assert!(!is_match("a*b*c", "a--c"));
    assert!(is_match("[*]", "[::1]"));
    assert!(is_match("a\\*", "a\\b"));
    assert!(!is_match("a\\*", "ab"));
    assert!(!is_match("*", "line\nbreak"));
}

#[test]
fn patterns_become_anchored_expressions() {
    assert_eq!(glob_pattern("*.openai.com"), "^.*\\.openai\\.com$");
    assert_eq!(glob_pattern("192.168.*"), "^192\\.168\\..*$");
    assert_eq!(glob_pattern(""), "^$");
    assert_eq!(glob_pattern("plain"), "^plain$");
    assert_eq!(glob_pattern("a\\*b"), "^a\\\\.*b$");
    assert_eq!(glob_pattern("**"), "^.*.*$");
    assert_eq!(
        glob_pattern("\\.+*?()|[]{}^$#&-~"),
        "^\\\\\\.\\+.*\\?\\(\\)\\|\\[\\]\\{\\}\\^\\$\\#\\&\\-\\~$"
    );
    assert_eq!(glob_pattern("a b/c_d"), "^a b/c_d$");
}

#[test]
fn groups_and_rules_match_by_any_pattern() {
    let lan = group("lan", &["10.*", "192.168.*", "printer"]);
    assert!(group_has_match(&lan, "192.168.1.5"));
    assert!(group_has_match(&lan, "printer"));
    assert!(!group_has_match(&lan, "printer2"));
    assert!(!group_has_match(&group("none", &[]), "printer"));
    let rule = Rule { select: vec![], other: vec![group("a", &["a.*"]), group("b", &["b.*"])] };
    assert!(rule_has_match(&rule, "b.example"));
    assert!(!rule_has_match(&rule, "c.example"));
    assert!(!rule_has_match(&Rule { select: vec![1], other: default_direct() }, "a"));
}

#[test]
fn loopback_is_always_local() {
    let rules = vec![Rule { select: vec![3], other: vec![group("all", &["*"])] }];
    for mode in [DefaultMode::Proxy, DefaultMode::Direct] {
        let r = router(mode, vec![group("lan", &["127.*", "localhost"])], rules.clone());
        for host in ["127.0.0.1", "::1", "localhost"] {
            assert_eq!(r.do_route(host), direct("local"), "{host}");
        }
    }
    assert!(addr_is_loopback("127.0.0.1"));
    assert!(addr_is_loopback("::1"));
    assert!(addr_is_loopback("localhost"));
    assert!(!addr_is_loopback("127.0.0.2"));
    assert!(!addr_is_loopback("[::1]"));
    assert!(!addr_is_loopback("LOCALHOST"));
}

#[test]
fn direct_rule_wins_in_proxy_mode() {
    let r = router(DefaultMode::Proxy, vec![group("lan", &["192.168.*"])], vec![]);
    assert_eq!(r.do_route("192.168.1.5"), direct("lan"));
    match r.do_route("10.0.0.1") {
        Disposition::Proxy { server } => assert_eq!(server.index, 1),
        other => panic!("{other:?}"),
    }
    assert_eq!(is_direct(r.get_context(), "192.168.1.5"), Some("lan".to_string()));
    assert_eq!(is_direct(r.get_context(), "10.0.0.1"), None);
    assert_eq!(is_direct(r.get_context(), "localhost"), Some("local".to_string()));
}

#[test]
fn first_matching_direct_group_gives_the_label() {
    let groups = vec![group("a", &["x.*"]), group("b", &["*.example"]), group("c", &["x.example"])];
    let r = router(DefaultMode::Proxy, groups, vec![]);
    assert_eq!(r.do_route("x.example"), direct("a"));
    assert_eq!(r.do_route("y.example"), direct("b"));
}

#[test]
fn direct_rules_are_not_asked_in_direct_mode() {
    let r = router(DefaultMode::Direct, vec![group("lan", &["192.168.*"])], vec![ai_rule()]);
    assert_eq!(r.do_route("192.168.1.5"), direct("default"));
    let rules = vec![Rule { select: vec![3], other: vec![group("all", &["192.*"])] }];
    let r = router(DefaultMode::Direct, vec![group("lan", &["192.168.*"])], rules);
    match r.do_route("192.168.1.5") {
        Disposition::Proxy { server } => assert_eq!(server.index, 3),
        other => panic!("{other:?}"),
    }
}

#[test]
fn proxy_rule_selects_its_first_candidate() {
    for mode in [DefaultMode::Proxy, DefaultMode::Direct] {
        let r = router(mode, vec![], vec![ai_rule()]);
        match r.do_route("api.openai.com") {
            Disposition::Proxy { server } => {
                assert_eq!(server.index, 2);
                assert_eq!(server.host, "node2.example.net");
            },
            other => panic!("{other:?}"),
        }
        assert_eq!(r.select_index("api.openai.com"), Some(2));
        assert_eq!(r.select_index("example.com"), None);
        assert_eq!(r.get_server("api.openai.com").map(|s| s.index), Some(2));
        assert_eq!(r.get_server("example.com"), None);
    }
}

#[test]
fn unmatched_destination_takes_the_default() {
    let r = router(DefaultMode::Proxy, vec![], vec![ai_rule()]);
    match r.do_route("example.com") {
        Disposition::Proxy { server } => assert_eq!(server.index, 1),
        other => panic!("{other:?}"),
    }
    let r = router(DefaultMode::Direct, vec![], vec![ai_rule()]);
    assert_eq!(r.do_route("example.com"), direct("default"));
}

#[test]
fn rule_without_candidates_uses_the_default_index() {
    let rules = vec![
        Rule { select: vec![], other: vec![group("video", &["*.video.example"])] },
        Rule { select: vec![3, 2], other: vec![group("all", &["*.example"])] },
    ];
    for mode in [DefaultMode::Proxy, DefaultMode::Direct] {
        let r = router(mode, vec![], rules.clone());
        assert_eq!(r.select_index("a.video.example"), Some(1));
        assert_eq!(r.select_index("a.audio.example"), Some(3));
        assert_eq!(r.get_default_proxy_index(), 1);
    }
}

#[test]
fn rules_are_tried_in_order() {
    let rules = vec![
        Rule { select: vec![2], other: vec![group("a", &["nothing"]), group("b", &["*.example"])] },
        Rule { select: vec![3], other: vec![group("c", &["www.example"])] },
    ];
    let r = router(DefaultMode::Proxy, vec![], rules);
    assert_eq!(r.select_index("www.example"), Some(2));
}

#[test]
fn servers_are_found_by_index() {
    let r = router(DefaultMode::Proxy, vec![], vec![]);
    assert_eq!(r.get_info(0), None);
    assert_eq!(r.get_info(1).map(|s| s.name.as_str()), Some("node 1"));
    assert_eq!(r.get_info(3).map(|s| s.index), Some(3));
    assert_eq!(r.get_info(4), None);
    assert_eq!(r.get_info(65535), None);
}

#[test]
fn context_gives_back_what_was_loaded() {
    let core = settings(DefaultMode::Direct, vec![group("lan", &["10.*"])], vec![ai_rule()]);
    let context = AppContext::load(core.clone(), pool(2)).unwrap_or_else(|e| panic!("{e:?}"));
    assert_eq!(get_config(&context), &core);
    assert_eq!(get_server_list(&context), &pool(2));
    assert!(!is_mode_default_proxy(&context));
    let r = Router::new(context);
    assert_eq!(get_config(r.get_context()).socks_bind, "127.0.0.1:1080");
    let context = AppContext::load(settings(DefaultMode::default(), vec![], vec![]), pool(1));
    assert!(is_mode_default_proxy(&context.unwrap_or_else(|e| panic!("{e:?}"))));
    assert_eq!(DefaultMode::default(), DefaultMode::Proxy);
    assert!(default_direct().is_empty());
    assert_eq!(default_scheme(), "");
}

#[test]
fn misplaced_server_fails_the_check() {
    let mut servers = pool(3);
    servers.list[1].index = 3;
    let core = settings(DefaultMode::Proxy, vec![], vec![]);
    assert_eq!(validate(&core, &servers), Err(ConfigError::IndexMismatch));
    assert!(matches!(AppContext::load(core.clone(), servers.clone()), Err(ConfigError::IndexMismatch)));
    assert!(matches!(Router::get_factory(core, servers), Err(ConfigError::IndexMismatch)));
    let mut servers = pool(3);
    servers.list[2].index = 0;
    assert_eq!(
        validate(&settings(DefaultMode::Direct, vec![], vec![]), &servers),
        Err(ConfigError::IndexMismatch)
    );
    let mut servers = pool(1);
    servers.list[0].index = 2;
    assert_eq!(
        validate(&settings(DefaultMode::Proxy, vec![], vec![]), &servers),
        Err(ConfigError::IndexMismatch)
    );
}

#[test]
fn each_flaw_has_its_error() {
    let ok = settings(DefaultMode::Proxy, vec![group("lan", &["10.*"])], vec![ai_rule()]);
    assert_eq!(validate(&ok, &pool(3)), Ok(()));
    assert_eq!(validate(&ok, &pool(2)), Ok(()));
    assert_eq!(validate(&ok, &pool(1)), Err(ConfigError::IndexOutOfBounds));
    assert_eq!(validate(&ok, &pool(0)), Err(ConfigError::IndexOutOfBounds));

    let mut core = ok.clone();
    core.select = vec![];
    assert_eq!(validate(&core, &pool(3)), Err(ConfigError::MissingDefault));

    let mut core = ok.clone();
    core.select = vec![1, 0];
    assert_eq!(validate(&core, &pool(3)), Err(ConfigError::IndexOutOfBounds));
    core.select = vec![1, 4];
    assert_eq!(validate(&core, &pool(3)), Err(ConfigError::IndexOutOfBounds));
    core.select = vec![1, 3];
    assert_eq!(validate(&core, &pool(3)), Ok(()));

    let mut core = ok.clone();
    core.proxy.push(Rule { select: vec![2, 9], other: vec![] });
    assert_eq!(validate(&core, &pool(3)), Err(ConfigError::IndexOutOfBounds));

    let mut servers = pool(3);
    servers.list[1].scheme = "vmess".to_string();
    assert_eq!(validate(&ok, &servers), Err(ConfigError::WrongScheme));
    servers.list[1].scheme = "Trojan".to_string();
    assert_eq!(validate(&ok, &servers), Err(ConfigError::WrongScheme));
    let mut servers = pool(3);
    servers.list[2].scheme = "vmess".to_string();
    assert_eq!(validate(&ok, &servers), Ok(()));
    let mut servers = pool(3);
    servers.list[0].scheme = String::new();
    assert_eq!(validate(&ok, &servers), Err(ConfigError::WrongScheme));

    let mut core = ok.clone();
    core.direct.push(group("lan", &["192.168.*"]));
    assert_eq!(validate(&core, &pool(3)), Err(ConfigError::DuplicateLabel));
    let mut core = ok.clone();
    core.proxy[0].other.push(group("ai", &["*.anthropic.com"]));
    assert_eq!(validate(&core, &pool(3)), Err(ConfigError::DuplicateLabel));
    let mut core = ok.clone();
    core.proxy.push(Rule { select: vec![1], other: vec![group("ai", &["*.anthropic.com"])] });
    core.direct.push(group("ai", &["intranet"]));
    assert_eq!(validate(&core, &pool(3)), Ok(()));
}

#[test]
fn flaws_are_reported_in_a_fixed_order() {
    let mut servers = pool(2);
    servers.list[0].index = 7;
    servers.list[1].scheme = "vmess".to_string();
    let mut core = settings(DefaultMode::Proxy, vec![group("a", &[]), group("a", &[])], vec![]);
    core.select = vec![];
    assert_eq!(validate(&core, &servers), Err(ConfigError::IndexMismatch));
    servers.list[0].index = 1;
    assert_eq!(validate(&core, &servers), Err(ConfigError::MissingDefault));
    core.select = vec![2, 5];
    assert_eq!(validate(&core, &servers), Err(ConfigError::IndexOutOfBounds));
    core.select = vec![2];
    assert_eq!(validate(&core, &servers), Err(ConfigError::WrongScheme));
    core.select = vec![1];
    assert_eq!(validate(&core, &servers), Err(ConfigError::DuplicateLabel));
}

#[test]
fn direct_transfer_dials_the_destination() {
    let r = router(DefaultMode::Proxy, vec![group("lan", &["192.168.*"])], vec![ai_rule()]);
    assert_eq!(
        transfer(&r, "192.168.1.5", 8080),
        Transfer::Direct { target: "192.168.1.5:8080".to_string(), label: "lan".to_string() }
    );
    assert_eq!(
        transfer(&r, "localhost", 22),
        Transfer::Direct { target: "localhost:22".to_string(), label: "local".to_string() }
    );
}

#[test]
fn tunnelled_transfer_dials_the_server() {
    let r = router(DefaultMode::Proxy, vec![], vec![ai_rule()]);
    match transfer(&r, "api.openai.com", 443) {
        Transfer::Tunnel { server, dial, request } => {
            assert_eq!(server.index, 2);
            assert_eq!(
                dial,
                DialPlan {
                    address: "node2.example.net:443".to_string(),
                    server_name: "sni2.example.net".to_string(),
                    timeout_secs: 5,
                }
            );
            assert_eq!(request, TrojanUtil::send_trojan_request("key2", "api.openai.com", 443));
            assert!(request.is_ok());
        },
        other => panic!("{other:?}"),
    }
    match transfer(&r, &"a".repeat(300), 443) {
        Transfer::Tunnel { server, request, .. } => {
            assert_eq!(server.index, 1);
            assert_eq!(request, Err(TrojanError::DomainTooLong));
        },
        other => panic!("{other:?}"),
    }
}
