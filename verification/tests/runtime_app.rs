use selium::runtime::app::{is_whitespace, parse_app, AppDef};

#[test]
fn full_definition_parses() {
    let def = parse_app(
        "name=dns, path=/guests/dns.wasm ,entrypoint=start,module-id=dns-mod,dependencies=a, b ,tenant=acme,readiness=ready",
    )
    .expect("parse");
    assert_eq!(
        def,
        AppDef {
            name: "dns".to_string(),
            path: "/guests/dns.wasm".to_string(),
            entrypoint: "start".to_string(),
            module_id: "dns-mod".to_string(),
            dependencies: vec!["a".to_string(), "b".to_string()],
            tenant: Some("acme".to_string()),
            readiness: "ready".to_string(),
        }
    );
}

#[test]
fn defaults_apply() {
    let def = parse_app("name=x,path=x.wasm").expect("parse");
    assert_eq!(def.entrypoint, "main");
    assert_eq!(def.module_id, "x");
    assert!(def.dependencies.is_empty());
    assert_eq!(def.tenant, None);
    assert_eq!(def.readiness, "immediate");
}

#[test]
fn empty_tenant_means_none_and_later_keys_win() {
    let def = parse_app("name=x,path=p,tenant=acme,tenant=,name=y").expect("parse");
    assert_eq!(def.tenant, None);
    assert_eq!(def.name, "y");
    assert_eq!(def.module_id, "y");
}

#[test]
fn errors_name_the_problem() {
    assert_eq!(parse_app("path=p").unwrap_err(), "missing required key 'name' in 'path=p'");
    assert_eq!(parse_app("name=n").unwrap_err(), "missing required key 'path' in 'name=n'");
    assert_eq!(parse_app("name=,path=p").unwrap_err(), "name must not be empty");
    assert_eq!(parse_app("name=n,path=").unwrap_err(), "path must not be empty");
    assert_eq!(parse_app(" =v").unwrap_err(), "empty key in ' =v'");
    assert_eq!(
        parse_app("oops,name=n").unwrap_err(),
        "expected key=value pair, got 'oops' in 'oops,name=n'"
    );
    assert_eq!(parse_app("name=n,path=p,colour=red").unwrap_err(), "unknown key 'colour'");
    assert_eq!(parse_app("").unwrap_err(), "expected key=value pair, got '' in ''");
}

#[test]
fn continuation_segments_keep_their_spacing() {
    let def = parse_app("name=n,path=p,readiness=a, b").expect("parse");
    assert_eq!(def.readiness, "a, b");
}

#[test]
fn whitespace_matches_std() {
    for c in ['\t', '\n', ' ', '\u{85}', '\u{a0}', '\u{2003}', '\u{3000}', 'a', '_', '\u{200b}'] {
        assert_eq!(is_whitespace(c), c.is_whitespace(), "{:?}", c);
    }
}
