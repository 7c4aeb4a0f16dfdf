use tap_escrow_manager::config::{consumer_properties, Kafka};

fn pair(name: &str, value: &str) -> (String, String) {
    (name.to_string(), value.to_string())
}

fn kafka(config: Vec<(String, String)>) -> Kafka {
    Kafka {
        config,
        realtime_topic: "gateway_queries".to_string(),
        aggregated_topic: None,
        aggregated_cutoff_timestamp: None,
    }
}

#[test]
fn consumer_gets_the_defaults_it_lacks() {
    let properties = consumer_properties(&kafka(vec![pair("bootstrap.servers", "localhost:9092")]));
    assert_eq!(
        properties,
        vec![
            pair("bootstrap.servers", "localhost:9092"),
            pair("group.id", "tap-escrow-manager"),
            pair("enable.auto.commit", "true"),
            pair("enable.auto.offset.store", "true"),
        ]
    );
}

#[test]
fn consumer_keeps_what_the_configuration_sets() {
    let properties = consumer_properties(&kafka(vec![
        pair("enable.auto.commit", "false"),
        pair("group.id", "mine"),
    ]));
    assert_eq!(
        properties,
        vec![
            pair("enable.auto.commit", "false"),
            pair("group.id", "mine"),
            pair("enable.auto.offset.store", "true"),
        ]
    );
}

#[test]
fn consumer_of_an_empty_configuration() {
    let properties = consumer_properties(&kafka(vec![]));
    assert_eq!(
        properties,
        vec![
            pair("group.id", "tap-escrow-manager"),
            pair("enable.auto.commit", "true"),
            pair("enable.auto.offset.store", "true"),
        ]
    );
}
