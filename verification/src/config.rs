//! The part of the configuration that the library reads itself: how Kafka
//! is reached.

use vstd::prelude::*;

verus! {

/// The Kafka part of the configuration.
#[derive(Clone, Debug, PartialEq, Eq)]
pub struct Kafka {
    /// Properties of the consumer, as pairs of a name and a value.
    pub config: Vec<(String, String)>,
    /// The topic of the fee records as they occur.
    pub realtime_topic: String,
    /// The topic of the fee records by the hour, if there is one.
    pub aggregated_topic: Option<String>,
    /// Hours of the aggregated topic that begin, in milliseconds since the
    /// epoch, before this are not counted.
    pub aggregated_cutoff_timestamp: Option<i64>,
}

/// A list of properties as the texts they hold.
pub open spec fn texts(properties: Seq<(String, String)>) -> Seq<(Seq<char>, Seq<char>)> {
    Seq::new(properties.len(), |i: int| (properties[i].0@, properties[i].1@))
}

/// Whether `properties` sets the property `name`.
pub open spec fn sets(properties: Seq<(Seq<char>, Seq<char>)>, name: Seq<char>) -> bool {
    exists|i: int| 0 <= i < properties.len() && (#[trigger] properties[i]).0 == name
}

/// `properties`, and `name` set to `value` after them if they do not set
/// it.
pub open spec fn with_default(
    properties: Seq<(Seq<char>, Seq<char>)>,
    name: Seq<char>,
    value: Seq<char>,
) -> Seq<(Seq<char>, Seq<char>)> {
    if sets(properties, name) {
        properties
    } else {
        properties.push((name, value))
    }
}

/// The properties of the consumer: those of the configuration, and after
/// them a group, automatic commits and automatic storing of offsets where
/// the configuration does not speak of them.
pub open spec fn consumer_defaults(properties: Seq<(Seq<char>, Seq<char>)>) -> Seq<
    (Seq<char>, Seq<char>),
> {
    with_default(
        with_default(
            with_default(properties, "group.id"@, "tap-escrow-manager"@),
            "enable.auto.commit"@,
            "true"@,
        ),
        "enable.auto.offset.store"@,
        "true"@,
    )
}

fn has_property(properties: &Vec<(String, String)>, name: &str) -> (found: bool)
    ensures
        found == sets(texts(properties@), name@),
{
    let mut i: usize = 0;
    let wanted: String = name.to_owned();
    while i < properties.len()
        invariant
            i <= properties@.len(),
            wanted@ == name@,
            forall|j: int| 0 <= j < i ==> (#[trigger] texts(properties@)[j]).0 != name@,
        decreases properties@.len() - i,
    {
        if properties[i].0 == wanted {
            assert(texts(properties@)[i as int].0 == name@);
            return true;
        }
        assert(texts(properties@)[i as int].0 != name@);
        i += 1;
    }
    false
}

fn set_default(properties: &mut Vec<(String, String)>, name: &str, value: &str)
    ensures
        texts(final(properties)@) == with_default(texts(old(properties)@), name@, value@),
{
    if !has_property(properties, name) {
        properties.push((name.to_owned(), value.to_owned()));
        assert(texts(properties@) =~= texts(old(properties)@).push((name@, value@)));
    }
}

/// The properties with which the consumer is made.
pub fn consumer_properties(config: &Kafka) -> (properties: Vec<(String, String)>)
    ensures
        texts(properties@) == consumer_defaults(texts(config.config@)),
{
    let mut properties: Vec<(String, String)> = Vec::new();
    let mut i: usize = 0;
    while i < config.config.len()
        invariant
            i <= config.config@.len(),
            properties@.len() == i,
            forall|j: int|
                0 <= j < i ==> (#[trigger] properties@[j]).0@ == config.config@[j].0@
                    && properties@[j].1@ == config.config@[j].1@,
        decreases config.config@.len() - i,
    {
        properties.push((config.config[i].0.clone(), config.config[i].1.clone()));
        i += 1;
    }
    assert(texts(properties@) =~= texts(config.config@));
    set_default(&mut properties, "group.id", "tap-escrow-manager");
    set_default(&mut properties, "enable.auto.commit", "true");
    set_default(&mut properties, "enable.auto.offset.store", "true");
    properties
}

} // verus!
