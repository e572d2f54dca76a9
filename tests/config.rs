use calmuxd::config::{ConfigError, FeedConfig, FeedRegistry};

fn feed(endpoint: &str, urls: &[&str]) -> FeedConfig {
    FeedConfig {
        endpoint: endpoint.to_string(),
        visual_name: None,
        color: "#ff69b4".to_string(),
        urls: urls.iter().map(|u| u.to_string()).collect(),
    }
}

#[test]
fn duplicate_endpoint_is_refused() {
    let r = FeedRegistry::new(vec![
        feed("/team", &["http://a/1.ics"]),
        feed("/other", &["http://b/1.ics"]),
        feed("/team", &["http://c/1.ics"]),
    ]);
    assert_eq!(r.err(), Some(ConfigError::DuplicateEndpoint(2)));
}

#[test]
fn feed_without_urls_is_refused() {
    let r = FeedRegistry::new(vec![feed("/team", &["http://a/1.ics"]), feed("/empty", &[])]);
    assert_eq!(r.err(), Some(ConfigError::NoUrls(1)));
}

#[test]
fn lookup_by_endpoint() {
    let reg = FeedRegistry::new(vec![
        feed("/team", &["http://a/1.ics"]),
        feed("/other", &["http://b/1.ics", "http://b/2.ics"]),
    ])
    .unwrap();
    assert_eq!(reg.lookup("/other").unwrap().urls.len(), 2);
    assert_eq!(reg.lookup("/team").unwrap().endpoint, "/team");
    assert!(reg.lookup("/missing").is_none());
    assert_eq!(reg.feeds().len(), 2);
}

#[test]
fn empty_configuration_is_accepted() {
    let reg = FeedRegistry::new(vec![]).unwrap();
    assert!(reg.lookup("/team").is_none());
}

#[test]
fn config_error_messages() {
    assert_eq!(ConfigError::NoUrls(0).message(), "a feed lists no URL");
    assert_eq!(ConfigError::DuplicateEndpoint(1).message(), "a feed has the endpoint of another feed");
}
