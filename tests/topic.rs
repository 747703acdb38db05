use mqtt_item::{Topic, TopicTree};

#[test]
fn layer_count() {
    assert_eq!(
        Topic::from_str("region/device/1234/neighbor/2345/rssi")
            .layers()
            .len(),
        6
    );

    assert_eq!(Topic::from_str("+/+/+/#").layers().len(), 4);
    assert_eq!(Topic::from_str("#").layers().len(), 1);
}

#[test]
fn push() {
    let mut topic = Topic::from_str("region");
    assert_eq!("region", topic.str());

    topic.push("subtopic");
    assert_eq!("region/subtopic", topic.str());
}

#[test]
fn push_front() {
    let mut topic = Topic::from_str("region");
    assert_eq!("region", topic.str());

    topic.push_front("prefix");
    assert_eq!("prefix/region", topic.str());
}

#[test]
fn push_onto_empty_topic_has_no_separator() {
    let mut topic = Topic::new();
    topic.push("first");
    assert_eq!("first", topic.str());
    let mut front = Topic::new();
    front.push_front("only");
    assert_eq!("only", front.str());
}

#[test]
fn layers_in_order() {
    let layers = Topic::from_str("a/bc//d").layers();
    assert_eq!(layers, vec!["a", "bc", "", "d"]);
    assert_eq!(Topic::new().layers(), vec![""]);
}

#[test]
fn pushed_layer_with_separator_reads_as_two_layers() {
    let mut topic = Topic::from_str("x");
    topic.push("y/z");
    assert_eq!(topic.layers().len(), 3);
    assert_eq!(topic.into_string(), "x/y/z");
}

#[test]
fn topic_tree_holds_topics() {
    let mut tree = TopicTree::new();
    assert_eq!(tree.inner().len(), 0);
    tree.inner_mut().push(Topic::from_str("a/b"));
    assert_eq!(tree.inner().len(), 1);
    assert_eq!(tree.inner()[0].str(), "a/b");
}

#[test]
fn topic_tree_text_has_one_line_per_topic() {
    let mut tree = TopicTree::new();
    assert_eq!(tree.to_text(), "");
    tree.inner_mut().push(Topic::from_str("a/+"));
    tree.inner_mut().push(Topic::from_str("b"));
    assert_eq!(tree.to_text(), "a/+\nb\n");
}
