use topic_broker::cli::{parse_count, Cli, CliCommand};

fn chars(s: &str) -> Vec<char> {
    s.chars().collect()
}

#[test]
fn blank_and_exit() {
    assert!(matches!(Cli::parse_line(""), CliCommand::Skip));
    assert!(matches!(Cli::parse_line(" \t\n"), CliCommand::Skip));
    assert!(matches!(Cli::parse_line("  exit \n"), CliCommand::Exit));
    assert!(matches!(Cli::parse_line("exit now"), CliCommand::Unknown { command } if command == chars("exit")));
}

#[test]
fn topic_command() {
    match Cli::parse_line("topic orders 3\n") {
        CliCommand::CreateTopic { topic, partition_no } => {
            assert_eq!(topic, chars("orders"));
            assert_eq!(partition_no, 3);
        }
        _ => panic!("expected a topic command"),
    }
    match Cli::parse_line("topic\u{3000}x\t+7") {
        CliCommand::CreateTopic { topic, partition_no } => {
            assert_eq!(topic, chars("x"));
            assert_eq!(partition_no, 7);
        }
        _ => panic!("expected a topic command"),
    }
    assert!(matches!(Cli::parse_line("topic orders"), CliCommand::TopicUsage));
    assert!(matches!(Cli::parse_line("topic a b c"), CliCommand::TopicUsage));
    assert!(matches!(Cli::parse_line("topic orders three"), CliCommand::InvalidPartitionCount));
    assert!(matches!(Cli::parse_line("topic orders -1"), CliCommand::InvalidPartitionCount));
}

#[test]
fn insert_command() {
    match Cli::parse_line("insert orders - hello") {
        CliCommand::Insert { topic, key, value } => {
            assert_eq!(topic, chars("orders"));
            assert_eq!(key, None);
            assert_eq!(value, chars("hello"));
        }
        _ => panic!("expected an insert"),
    }
    match Cli::parse_line("insert orders k1 v1") {
        CliCommand::Insert { key, .. } => assert_eq!(key, Some(chars("k1"))),
        _ => panic!("expected an insert"),
    }
    assert!(matches!(Cli::parse_line("insert orders k1"), CliCommand::InsertUsage));
}

#[test]
fn unknown_command() {
    assert!(matches!(Cli::parse_line("list topics"), CliCommand::Unknown { command } if command == chars("list")));
}

#[test]
fn counts_parse_like_std() {
    for s in ["0", "42", "+5", "18446744073709551615", "007", "", "+", "-0", "18446744073709551616", "4 2", "٣", "1_000", "+-1"] {
        assert_eq!(parse_count(&chars(s)), s.parse::<u64>().ok(), "{:?}", s);
    }
}
