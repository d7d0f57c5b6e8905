use bee_runtime::event::publish_outcome;
use tokio::sync::broadcast::error::SendError;
use bee_runtime::{Topic, TopicClosed, TopicConfig};

#[test]
fn default_topic_capacity() {
    assert_eq!(TopicConfig::default().capacity, 1024);
}

#[test]
fn publish_without_subscribers_fails() {
    let t = Topic::<u64>::new(TopicConfig { capacity: 4 });
    assert_eq!(t.receiver_count(), 0);
    assert!(matches!(t.publish(1), Err(TopicClosed)));
}

#[test]
fn publish_reaches_subscribers() {
    let t = Topic::<u64>::new(TopicConfig { capacity: 4 });
    let mut rx1 = t.subscribe();
    assert_eq!(t.publish(7).unwrap(), 1);
    let t2 = t.clone();
    let mut rx2 = t2.subscribe();
    assert_eq!(t.receiver_count(), 2);
    assert_eq!(t2.publish(8).unwrap(), 2);
    assert_eq!(*rx1.try_recv().unwrap(), 7);
    assert_eq!(*rx1.try_recv().unwrap(), 8);
    assert_eq!(*rx2.try_recv().unwrap(), 8);
}

#[test]
fn dropped_subscribers_close_the_topic() {
    let t = Topic::<&'static str>::new(TopicConfig::default());
    let rx = t.subscribe();
    assert_eq!(t.publish("hello").unwrap(), 1);
    drop(rx);
    assert!(t.publish("again").is_err());
}

#[test]
fn publish_outcome_maps_the_send_answer() {
    assert_eq!(publish_outcome::<u8>(Ok(3)).unwrap(), 3);
    assert!(matches!(publish_outcome(Err(SendError(5u8))), Err(TopicClosed)));
}
