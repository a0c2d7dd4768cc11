use prom_sd::tag::{parse, ParseError, TagDirective};

#[test]
fn parse_global_label() {
    let r = parse("prom::region=us-east");
    assert_eq!(
        r,
        Ok(Some(TagDirective::GlobalLabel {
            key: "region".to_string(),
            value: "us-east".to_string(),
        }))
    );
}

#[test]
fn parse_job_label() {
    let r = parse("prom:db:env=prod");
    assert_eq!(
        r,
        Ok(Some(TagDirective::JobLabel {
            job: "db".to_string(),
            key: "env".to_string(),
            value: "prod".to_string(),
        }))
    );
}

#[test]
fn parse_job_address() {
    let r = parse("prom:db:db=5432");
    assert_eq!(
        r,
        Ok(Some(TagDirective::JobAddress {
            job: "db".to_string(),
            value: "5432".to_string(),
        }))
    );
}

#[test]
fn parse_ignores_foreign_tags() {
    assert_eq!(parse("web"), Ok(None));
    assert_eq!(parse(""), Ok(None));
    assert_eq!(parse("prom"), Ok(None));
    assert_eq!(parse("production:db:env=prod"), Ok(None));
    assert_eq!(parse("prometheus-node"), Ok(None));
}

#[test]
fn parse_malformed_missing_colon() {
    let r = parse("prom:brokentag");
    assert_eq!(r, Err(ParseError::Malformed("prom:brokentag".to_string())));
}

#[test]
fn parse_malformed_missing_equals() {
    let r = parse("prom:db:noval");
    assert_eq!(r, Err(ParseError::Malformed("prom:db:noval".to_string())));
}

#[test]
fn parse_value_may_contain_separators() {
    let r = parse("prom:db:url=http://x:9/y=z");
    assert_eq!(
        r,
        Ok(Some(TagDirective::JobLabel {
            job: "db".to_string(),
            key: "url".to_string(),
            value: "http://x:9/y=z".to_string(),
        }))
    );
}

#[test]
fn parse_empty_key_and_value() {
    let r = parse("prom::=");
    assert_eq!(
        r,
        Ok(Some(TagDirective::GlobalLabel { key: "".to_string(), value: "".to_string() }))
    );
}
