use grocketmq::topic_config::TopicConfig;
use grocketmq::topic_config::TopicConfigError;
use grocketmq::topic_config::TopicConfigManager;
use grocketmq::topic_config::TopicType;

#[test]
fn manager_paths_follow_the_root() {
    let mgr = TopicConfigManager::new("./");
    assert_eq!(mgr.path(), ".//topic_config.json");
    assert_eq!(mgr.backup_path(), ".//topic_config.json.bak");
    let mgr2 = TopicConfigManager::new("/var/lib/broker");
    assert_eq!(mgr2.path(), "/var/lib/broker/topic_config.json");
    assert_eq!(mgr2.backup_path(), "/var/lib/broker/topic_config.json.bak");
}

#[test]
fn add_then_get_topic() {
    let mut mgr = TopicConfigManager::new("./");
    let cfg = TopicConfig::new("test1".to_string(), TopicType::NORMAL);
    mgr.add_or_update_topic(cfg).unwrap();
    let got = mgr.get_topic_config("test1");
    assert!(got.is_some());
    assert_eq!(got.unwrap().name(), "test1");
    assert!(matches!(got.unwrap().topic_type(), TopicType::NORMAL));
}

#[test]
fn update_replaces_topic_type() {
    let mut mgr = TopicConfigManager::new("./");
    mgr.add_or_update_topic(TopicConfig::new("t".to_string(), TopicType::NORMAL)).unwrap();
    mgr.add_or_update_topic(TopicConfig::new("t".to_string(), TopicType::FIFO)).unwrap();
    let got = mgr.get_topic_config("t").unwrap();
    assert!(matches!(got.topic_type(), TopicType::FIFO));
    assert_eq!(mgr.entries().len(), 1);
}

#[test]
fn delete_removes_topic() {
    let mut mgr = TopicConfigManager::new("./");
    mgr.add_or_update_topic(TopicConfig::new("test1".to_string(), TopicType::NORMAL)).unwrap();
    assert!(mgr.delete_topic("test1"));
    assert!(mgr.get_topic_config("test1").is_none());
    assert!(!mgr.delete_topic("test1"));
}

#[test]
fn empty_name_upsert_fails_and_writes_nothing() {
    let mut mgr = TopicConfigManager::new("./");
    mgr.add_or_update_topic(TopicConfig::new("keep".to_string(), TopicType::DELAY)).unwrap();
    let r = mgr.add_or_update_topic(TopicConfig::new("".to_string(), TopicType::NORMAL));
    assert!(matches!(r, Err(TopicConfigError::EmptyName)));
    assert_eq!(mgr.entries().len(), 1);
    assert!(mgr.get_topic_config("keep").is_some());
    assert!(mgr.get_topic_config("").is_none());
}

#[test]
fn replace_table_refuses_duplicates() {
    let mut mgr = TopicConfigManager::new("./");
    let r = mgr.replace_table(vec![
        TopicConfig::new("a".to_string(), TopicType::NORMAL),
        TopicConfig::new("a".to_string(), TopicType::FIFO),
    ]);
    assert!(matches!(r, Err(TopicConfigError::DuplicateName)));
    let ok = mgr.replace_table(vec![
        TopicConfig::new("a".to_string(), TopicType::NORMAL),
        TopicConfig::new("b".to_string(), TopicType::TRANSACTION),
    ]);
    assert!(ok.is_ok());
    assert!(mgr.get_topic_config("b").is_some());
}
