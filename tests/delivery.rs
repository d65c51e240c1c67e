use dota_updates::chunks::{split_chunks, MAX_CHUNK_LEN};
use dota_updates::cycle::{compose_message, headlines, AnnouncementBody, Event};

fn event(headline: &str, body: Option<&str>) -> Event {
    Event {
        announcement_body: AnnouncementBody {
            body: body.map(|b| b.to_string()),
            headline: headline.to_string(),
        },
    }
}

#[test]
fn long_message_gives_three_chunks() {
    let msg = "a".repeat(8500);
    let chunks = split_chunks(&msg, MAX_CHUNK_LEN);
    assert_eq!(chunks.len(), 3);
    assert_eq!(chunks[0].chars().count(), 4000);
    assert_eq!(chunks[1].chars().count(), 4000);
    assert_eq!(chunks[2].chars().count(), 500);
    assert_eq!(chunks.concat(), msg);
}

#[test]
fn empty_message_gives_no_chunk() {
    assert!(split_chunks("", MAX_CHUNK_LEN).is_empty());
}

#[test]
fn exact_multiple_gives_full_chunks() {
    let msg = "ab".repeat(4000);
    let chunks = split_chunks(&msg, MAX_CHUNK_LEN);
    assert_eq!(chunks.len(), 2);
    assert!(chunks.iter().all(|c| c.chars().count() == 4000));
}

#[test]
fn chunks_count_characters_not_bytes() {
    let msg = "\u{1F4CC}é".repeat(3);
    let chunks = split_chunks(&msg, 4);
    assert_eq!(chunks, vec!["\u{1F4CC}é\u{1F4CC}é".to_string(), "\u{1F4CC}é".to_string()]);
}

#[test]
fn headlines_keep_event_order() {
    let events = vec![event("first", Some("b")), event("second", None)];
    assert_eq!(headlines(&events), vec!["first".to_string(), "second".to_string()]);
}

#[test]
fn message_announces_newest_event() {
    let events = vec![
        event("Patch 7.35d", Some("[url=https://example.com]Notes[/url]")),
        event("Older", Some("old")),
    ];
    assert_eq!(
        compose_message(&events),
        "_*To see more updates and news follow this [link](https://www.dota2.com/news?l=english)*_\n\n*Patch 7.35d*\n[Notes](https://example.com)\n\n"
    );
}

#[test]
fn message_is_empty_without_body() {
    assert_eq!(compose_message(&vec![event("x", None)]), "");
    assert_eq!(compose_message(&Vec::new()), "");
}

#[test]
fn dispatch_sends_in_order_until_done() {
    let mut d = dota_updates::chunks::Dispatch::new(2);
    assert_eq!(d.next_chunk(), Some(0));
    d.record(true);
    assert_eq!(d.next_chunk(), Some(1));
    d.record(true);
    assert_eq!(d.next_chunk(), None);
    assert_eq!(d.report(), dota_updates::chunks::DispatchReport::Complete { sent: 2 });
}

#[test]
fn dispatch_stops_after_a_failure() {
    let mut d = dota_updates::chunks::Dispatch::new(3);
    d.record(true);
    d.record(false);
    assert_eq!(d.next_chunk(), None);
    assert_eq!(d.report(), dota_updates::chunks::DispatchReport::Partial { sent: 1 });
}

#[test]
fn dispatch_of_nothing_is_complete() {
    let d = dota_updates::chunks::Dispatch::new(0);
    assert_eq!(d.next_chunk(), None);
    assert_eq!(d.report(), dota_updates::chunks::DispatchReport::Complete { sent: 0 });
}
