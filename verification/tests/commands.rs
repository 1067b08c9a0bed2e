use pubsub::commands::parse_input;
use pubsub::messages::Request;

const HELP: &str = "Commands:\nsubscribe CHANNEL\nsend CHANNEL MESSAGE...";

#[test]
fn empty_input_prints_the_command_summary() {
    assert_eq!(parse_input(""), Err(HELP.to_string()));
    assert_eq!(parse_input("   \t "), Err(HELP.to_string()));
}

#[test]
fn help_prints_the_command_summary() {
    assert_eq!(parse_input("help"), Err(HELP.to_string()));
    assert_eq!(parse_input("  help  "), Err(HELP.to_string()));
}

#[test]
fn subscribe_takes_exactly_one_channel() {
    assert_eq!(
        parse_input("subscribe news"),
        Ok(Request::Subscribe("news".to_string()))
    );
    assert_eq!(
        parse_input("subscribe"),
        Err("Usage: subscribe CHANNEL".to_string())
    );
    assert_eq!(
        parse_input("subscribe news sports"),
        Err("Usage: subscribe CHANNEL".to_string())
    );
}

#[test]
fn send_joins_the_message_words() {
    assert_eq!(
        parse_input("send news hello there"),
        Ok(Request::Send { channel: "news".to_string(), message: "hello there".to_string() })
    );
}

#[test]
fn send_collapses_extra_whitespace_between_words() {
    assert_eq!(
        parse_input("  send \t news   hello \t there  "),
        Ok(Request::Send { channel: "news".to_string(), message: "hello there".to_string() })
    );
}

#[test]
fn send_needs_a_channel_and_a_message() {
    assert_eq!(parse_input("send"), Err("Usage: send CHANNEL MESSAGE...".to_string()));
    assert_eq!(parse_input("send news"), Err("Usage: send CHANNEL MESSAGE...".to_string()));
}

#[test]
fn unknown_commands_are_named() {
    assert_eq!(
        parse_input("shout news hi"),
        Err("Unrecognized command: shout".to_string())
    );
}
