use prom_sd::registry::EndpointRegistry;
use prom_sd::sd::Target;
use prom_sd::xo::Vm;

fn vm(name: &str, addr: Option<&str>, tags: &[&str]) -> Vm {
    Vm {
        name_label: name.to_string(),
        tags: tags.iter().map(|t| t.to_string()).collect(),
        main_ip_address: addr.map(|a| a.to_string()),
    }
}

fn label(t: &Target, key: &str) -> Option<String> {
    t.labels.iter().find(|p| p.0 == key).map(|p| p.1.clone())
}

#[test]
fn one_vm_address_and_label() {
    let vms = vec![vm("db1", Some("10.0.0.5"), &["prom:db:db=5432", "prom:db:env=prod"])];
    let reg = EndpointRegistry::build(&vms);
    let targets = reg.lookup("db");
    assert_eq!(targets.len(), 1);
    assert_eq!(targets[0].targets, vec!["10.0.0.5:5432".to_string()]);
    assert_eq!(label(&targets[0], "env"), Some("prod".to_string()));
    assert_eq!(targets[0].labels.len(), 1);
}

#[test]
fn key_differing_from_job_is_a_label_not_an_address() {
    let vms = vec![vm("db1", Some("10.0.0.5"), &["prom:db:port=5432", "prom:db:env=prod"])];
    let reg = EndpointRegistry::build(&vms);
    let targets = reg.lookup("db");
    assert_eq!(targets.len(), 1);
    assert_eq!(targets[0].targets, vec!["10.0.0.5".to_string()]);
    assert_eq!(label(&targets[0], "port"), Some("5432".to_string()));
    assert_eq!(label(&targets[0], "env"), Some("prod".to_string()));
}

#[test]
fn global_label_merges_into_job() {
    let vms = vec![vm("web1", Some("10.0.0.6"), &["prom::region=us-east", "prom:http:http=80"])];
    let reg = EndpointRegistry::build(&vms);
    let targets = reg.lookup("http");
    assert_eq!(targets.len(), 1);
    assert_eq!(targets[0].targets, vec!["10.0.0.6:80".to_string()]);
    assert_eq!(label(&targets[0], "region"), Some("us-east".to_string()));
}

#[test]
fn global_label_merges_even_when_listed_first_or_last() {
    let first = vec![vm("w", Some("10.0.0.6"), &["prom::region=us-east", "prom:http:port=80"])];
    let last = vec![vm("w", Some("10.0.0.6"), &["prom:http:port=80", "prom::region=us-east"])];
    for vms in [first, last] {
        let reg = EndpointRegistry::build(&vms);
        let targets = reg.lookup("http");
        assert_eq!(targets.len(), 1);
        assert_eq!(targets[0].targets, vec!["10.0.0.6".to_string()]);
        assert_eq!(label(&targets[0], "port"), Some("80".to_string()));
        assert_eq!(label(&targets[0], "region"), Some("us-east".to_string()));
    }
}

#[test]
fn vm_without_address_contributes_nothing() {
    let vms = vec![vm("noaddr", None, &["prom:http:port=80"])];
    let reg = EndpointRegistry::build(&vms);
    assert_eq!(reg.list_jobs().len(), 0);
    assert_eq!(reg.lookup("http").len(), 0);
    assert!(!reg.contains_job("http"));
}

#[test]
fn malformed_tag_is_skipped_and_build_succeeds() {
    let vms = vec![vm("bad", Some("10.0.0.7"), &["prom:brokentag"])];
    let reg = EndpointRegistry::build(&vms);
    assert_eq!(reg.list_jobs().len(), 0);
}

#[test]
fn malformed_tag_does_not_abort_the_vm() {
    let vms = vec![vm("bad", Some("10.0.0.7"), &["prom:brokentag", "prom:db:env=prod"])];
    let reg = EndpointRegistry::build(&vms);
    let targets = reg.lookup("db");
    assert_eq!(targets.len(), 1);
    assert_eq!(targets[0].targets, vec!["10.0.0.7".to_string()]);
    assert_eq!(label(&targets[0], "env"), Some("prod".to_string()));
}

#[test]
fn lookup_unknown_job_is_empty_not_an_error() {
    let vms = vec![vm("db1", Some("10.0.0.5"), &["prom:db:db=5432"])];
    let reg = EndpointRegistry::build(&vms);
    assert_eq!(reg.lookup("nonexistent"), Vec::<Target>::new());
    assert!(!reg.contains_job("nonexistent"));
}

#[test]
fn two_vms_same_job_stay_separate() {
    let vms = vec![
        vm("c1", Some("10.0.0.8"), &["prom:cache:cache=6379"]),
        vm("c2", Some("10.0.0.9"), &["prom:cache:cache=6379"]),
    ];
    let reg = EndpointRegistry::build(&vms);
    let targets = reg.lookup("cache");
    assert_eq!(targets.len(), 2);
    assert_eq!(targets[0].targets, vec!["10.0.0.8:6379".to_string()]);
    assert_eq!(targets[1].targets, vec!["10.0.0.9:6379".to_string()]);
}

#[test]
fn build_twice_yields_equal_registries() {
    let vms = vec![
        vm("db1", Some("10.0.0.5"), &["prom:db:db=5432", "prom:db:env=prod"]),
        vm("web1", Some("10.0.0.6"), &["prom::region=us-east", "prom:http:http=80"]),
        vm("noaddr", None, &["prom:http:port=80"]),
    ];
    let r1 = EndpointRegistry::build(&vms);
    let r2 = EndpointRegistry::build(&vms);
    assert_eq!(r1, r2);
}

#[test]
fn reordering_distinct_directives_keeps_the_target() {
    let a = vec![vm(
        "db1",
        Some("10.0.0.5"),
        &["prom:db:db=5432", "prom:db:env=prod", "prom::region=us-east"],
    )];
    let b = vec![vm(
        "db1",
        Some("10.0.0.5"),
        &["prom::region=us-east", "prom:db:env=prod", "prom:db:db=5432"],
    )];
    let ra = EndpointRegistry::build(&a);
    let rb = EndpointRegistry::build(&b);
    let ta = ra.lookup("db");
    let tb = rb.lookup("db");
    assert_eq!(ta.len(), 1);
    assert_eq!(tb.len(), 1);
    assert_eq!(ta[0].targets, tb[0].targets);
    for key in ["env", "region"] {
        assert_eq!(label(&ta[0], key), label(&tb[0], key));
    }
    assert_eq!(ta[0].labels.len(), tb[0].labels.len());
}

#[test]
fn last_duplicate_directive_wins() {
    let vms = vec![vm(
        "db1",
        Some("10.0.0.5"),
        &[
            "prom:db:db=1111",
            "prom:db:db=2222",
            "prom:db:env=a",
            "prom:db:env=b",
            "prom::zone=x",
            "prom::zone=y",
        ],
    )];
    let reg = EndpointRegistry::build(&vms);
    let targets = reg.lookup("db");
    assert_eq!(targets.len(), 1);
    assert_eq!(targets[0].targets, vec!["10.0.0.5:2222".to_string()]);
    assert_eq!(label(&targets[0], "env"), Some("b".to_string()));
    assert_eq!(label(&targets[0], "zone"), Some("y".to_string()));
}

#[test]
fn job_scoped_label_beats_global_label() {
    let before = vec![vm("w", Some("10.0.0.3"), &["prom::env=global", "prom:db:env=prod"])];
    let after = vec![vm("w", Some("10.0.0.3"), &["prom:db:env=prod", "prom::env=global"])];
    for vms in [before, after] {
        let reg = EndpointRegistry::build(&vms);
        let targets = reg.lookup("db");
        assert_eq!(targets.len(), 1);
        assert_eq!(label(&targets[0], "env"), Some("prod".to_string()));
    }
}

#[test]
fn global_label_applies_to_every_job() {
    let vms = vec![vm(
        "w",
        Some("10.0.0.4"),
        &["prom:a:x=1", "prom::site=hq", "prom:b:y=2"],
    )];
    let reg = EndpointRegistry::build(&vms);
    for job in ["a", "b"] {
        let targets = reg.lookup(job);
        assert_eq!(targets.len(), 1);
        assert_eq!(label(&targets[0], "site"), Some("hq".to_string()));
    }
}

#[test]
fn job_without_address_directive_gets_bare_base_address() {
    let vms = vec![vm("db1", Some("10.0.0.5"), &["prom:db:env=prod"])];
    let reg = EndpointRegistry::build(&vms);
    let targets = reg.lookup("db");
    assert_eq!(targets.len(), 1);
    assert_eq!(targets[0].targets, vec!["10.0.0.5".to_string()]);
}

#[test]
fn list_jobs_names_every_known_job() {
    let vms = vec![
        vm("db1", Some("10.0.0.5"), &["prom:db:db=5432"]),
        vm("web1", Some("10.0.0.6"), &["prom:http:http=80"]),
    ];
    let reg = EndpointRegistry::build(&vms);
    let jobs = reg.list_jobs();
    assert_eq!(jobs.len(), 2);
    assert!(jobs.contains(&"db".to_string()));
    assert!(jobs.contains(&"http".to_string()));
}

#[test]
fn config_keeps_its_fields() {
    let c = prom_sd::config::Config::new(
        "https://xoa.example".to_string(),
        "token-123".to_string(),
    );
    assert_eq!(c.xoa_url, "https://xoa.example");
    assert_eq!(c.xoa_token, "token-123");
}

#[test]
fn every_target_has_exactly_one_address() {
    let vms = vec![
        vm("db1", Some("10.0.0.5"), &["prom:db:db=5432", "prom:db:env=prod"]),
        vm("db2", Some("10.0.0.6"), &["prom:db:env=qa"]),
        vm("web1", Some("10.0.0.7"), &["prom::region=us-east", "prom:http:http=80"]),
        vm("noaddr", None, &["prom:http:port=80"]),
    ];
    let reg = EndpointRegistry::build(&vms);
    for job in reg.list_jobs() {
        for target in reg.lookup(&job) {
            assert_eq!(target.targets.len(), 1);
            assert!(!target.targets[0].is_empty());
        }
    }
}

#[test]
fn address_directive_with_empty_value_appends_bare_separator() {
    let vms = vec![vm("db1", Some("10.0.0.5"), &["prom:db:db="])];
    let reg = EndpointRegistry::build(&vms);
    let targets = reg.lookup("db");
    assert_eq!(targets.len(), 1);
    assert_eq!(targets[0].targets, vec!["10.0.0.5:".to_string()]);
}
