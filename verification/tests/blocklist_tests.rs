use dns_forwarder::blocklist::{name_of_line, parse_hosts, DNSBlocklist};
use dns_forwarder::packet::Question;

fn question(labels: &[&str]) -> Question {
    let mut name = Vec::new();
    for label in labels {
        name.push(label.len() as u8);
        name.extend_from_slice(label.as_bytes());
    }
    name.push(0);
    Question { name, tp: 1, class: 1 }
}

fn line(text: &str) -> Option<String> {
    let chars: Vec<char> = text.chars().collect();
    name_of_line(&chars)
}

#[test]
fn new_blocklist_is_empty() {
    let list = DNSBlocklist::new();
    assert_eq!(list.len(), 0);
    assert!(!list.contains(&question(&["ads", "example"])));
    assert!(!list.contains_name(&"".to_string()));
}

#[test]
fn sink_lines_contribute_their_second_token() {
    assert_eq!(line("0.0.0.0 ads.example"), Some("ads.example".to_string()));
    assert_eq!(line("  0.0.0.0\t\tads.example  "), Some("ads.example".to_string()));
    assert_eq!(line("0.0.0.0 ads.example # tracker"), Some("ads.example".to_string()));
    assert_eq!(line("0.0.0.0 a b c"), Some("a".to_string()));
    assert_eq!(line("0.0.0.0 ads.example\r"), Some("ads.example".to_string()));
    assert_eq!(line("0.0.0.0 #x"), Some("#x".to_string()));
}

#[test]
fn other_lines_contribute_nothing() {
    assert_eq!(line(""), None);
    assert_eq!(line("   \t "), None);
    assert_eq!(line("# 0.0.0.0 ads.example"), None);
    assert_eq!(line("  # comment"), None);
    assert_eq!(line("#0.0.0.0 ads.example"), None);
    assert_eq!(line("127.0.0.1 localhost"), None);
    assert_eq!(line("0.0.0.0"), None);
    assert_eq!(line("0.0.0.0   "), None);
    assert_eq!(line("0.0.0.00 ads.example"), None);
    assert_eq!(line("0.0.0 ads.example"), None);
    assert_eq!(line("0.0.0.0ads.example"), None);
    assert_eq!(line("::1 localhost"), None);
}

#[test]
fn unicode_whitespace_separates_tokens() {
    assert_eq!(line("0.0.0.0\u{A0}ads.example"), Some("ads.example".to_string()));
    assert_eq!(line("\u{2003}0.0.0.0\u{3000}ads.example\u{2028}x"), Some("ads.example".to_string()));
    assert_eq!(line("0.0.0.0_ads.example"), None);
}

#[test]
fn hosts_file_is_read_line_by_line() {
    let body = "# Title: hosts\n\n127.0.0.1 localhost\n0.0.0.0 ads.example\n  0.0.0.0   tracker.example  # note\r\n0.0.0.0\nmetrics.example\n0.0.0.0 ads.example\n0.0.0.0 Last.Example";
    assert_eq!(
        parse_hosts(body),
        vec![
            "ads.example".to_string(),
            "tracker.example".to_string(),
            "ads.example".to_string(),
            "Last.Example".to_string(),
        ]
    );
    assert_eq!(parse_hosts(""), Vec::<String>::new());
    assert_eq!(parse_hosts("\n\n\n"), Vec::<String>::new());
    assert_eq!(parse_hosts("0.0.0.0 a\n"), vec!["a".to_string()]);
    assert_eq!(parse_hosts("0.0.0.0 a\n0.0.0.0 b"), vec!["a".to_string(), "b".to_string()]);
}

#[test]
fn blocklist_holds_each_name_once() {
    let list = DNSBlocklist::from_hosts("0.0.0.0 a.example\n0.0.0.0 b.example\n0.0.0.0 a.example\n");
    assert_eq!(list.len(), 2);
    assert!(list.contains_name(&"a.example".to_string()));
    assert!(list.contains_name(&"b.example".to_string()));
    assert!(!list.contains_name(&"c.example".to_string()));
}

#[test]
fn question_is_matched_by_its_readable_name() {
    let list = DNSBlocklist::from_hosts("0.0.0.0 ads.example\n0.0.0.0 Mixed.Example\n");
    assert!(list.contains(&question(&["ads", "example"])));
    assert!(!list.contains(&question(&["example"])));
    assert!(!list.contains(&question(&["www", "ads", "example"])));
    assert!(!list.contains(&question(&["Ads", "Example"])));
    assert!(list.contains(&question(&["Mixed", "Example"])));
    assert!(!list.contains(&question(&["mixed", "example"])));
    let mut other_type = question(&["ads", "example"]);
    other_type.tp = 28;
    assert!(list.contains(&other_type));
}

#[test]
fn update_takes_the_place_of_the_whole_set() {
    let mut list = DNSBlocklist::from_hosts("0.0.0.0 old.example\n0.0.0.0 both.example\n");
    list.update("0.0.0.0 new.example\n0.0.0.0 both.example\n0.0.0.0 third.example\n");
    assert_eq!(list.len(), 3);
    assert!(!list.contains_name(&"old.example".to_string()));
    assert!(list.contains_name(&"new.example".to_string()));
    assert!(list.contains_name(&"both.example".to_string()));
    list.update("");
    assert_eq!(list.len(), 0);
}

#[test]
fn large_lists_are_spread_over_their_slots() {
    let mut body = String::new();
    for i in 0..20_000u32 {
        body.push_str(&format!("0.0.0.0 host{}.example\n", i));
        if i % 7 == 0 {
            body.push_str(&format!("0.0.0.0 host{}.example\n", i / 2));
        }
    }
    let list = DNSBlocklist::from_hosts(&body);
    assert_eq!(list.len(), 20_000);
    assert!(list.contains_name(&"host0.example".to_string()));
    assert!(list.contains_name(&"host19999.example".to_string()));
    assert!(!list.contains_name(&"host20000.example".to_string()));
    assert!(list.contains(&question(&["host777", "example"])));
}
