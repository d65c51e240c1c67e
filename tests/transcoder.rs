use dota_updates::markup::process_body;
use dota_updates::markup::restore_links;

#[test]
fn test_process_body() {
    let input = "[url=https://www.dota2.com]Dota 2[/url]";
    let processed_body = process_body(input);

    assert_eq!(processed_body, "[Dota 2](https://www.dota2.com)");
}

#[test]
fn test_restore_links() {
    let replaced_text = "SomeReplacement0";
    let found_fragments = vec!["[url=https://www.dota2.com]Dota 2[/url]".to_string()];
    let restored_text = restore_links(replaced_text, &found_fragments);

    assert_eq!(restored_text, found_fragments[0]);
}

#[test]
fn single_link_becomes_target_link() {
    let out = process_body("[url=https://example.com]Example[/url]");
    assert_eq!(out, "[Example](https://example.com)");
}

#[test]
fn table_is_removed_before_escaping() {
    let out = process_body("Intro[table][tr][td]secret.value[/td][/tr][/table]Outro");
    assert_eq!(out, "IntroOutro");
    assert!(!out.contains("secret"));
}

#[test]
fn table_across_lines_is_removed() {
    let out = process_body("x[table]a\nb.c[/table]y");
    assert_eq!(out, "xy");
}

#[test]
fn first_closer_ends_the_table() {
    let out = process_body("[table]x[/table]keep[/table]");
    assert_eq!(out, "keep[/table]");
}

#[test]
fn images_are_removed() {
    let out = process_body("a[img]{STEAM}/pic.png[\\/img]b");
    assert_eq!(out, "ab");
}

#[test]
fn images_with_plain_closer_are_removed() {
    let out = process_body("a[img]p.png[/img]b");
    assert_eq!(out, "ab");
}

#[test]
fn image_closes_at_first_closer_of_either_form() {
    let out = process_body("[img]a[\\/img]keep[img]b[/img]");
    assert_eq!(out, "keep");
}

#[test]
fn video_preview_becomes_notice() {
    let out = process_body("[previewyoutube=abc;full][\\/previewyoutube]");
    assert_eq!(
        out,
        "\\(This update contains video\\. To watch the video, go to the official website\\.\\)"
    );
}

#[test]
fn reserved_characters_are_escaped_once() {
    let out = process_body("1.5 - done!");
    assert_eq!(out, "1\\.5 \\- done\\!");
}

#[test]
fn second_run_adds_one_backslash_per_reserved_character() {
    let once = process_body("a_b c");
    assert_eq!(once, "a\\_b c");
    let twice = process_body(&once);
    assert_eq!(twice, "a\\\\_b c");
}

#[test]
fn structural_tags_are_mapped() {
    let out = process_body("[h1]Title[/h1][list][*][b]Hero[\\/b][*]Item[/list][strike]old[\\/strike]");
    assert_eq!(
        out,
        "[h1]Title\\*\u{1F538}\\*Hero\\*\u{1F4CC}Item\\~old\\~"
    );
}

#[test]
fn several_links_are_all_restored() {
    let out = process_body(
        "See [url=https://a.example]A.[/url] and [url=https://b.example]B[/url]!",
    );
    assert_eq!(out, "See [A.](https://a.example) and [B](https://b.example)\\!");
    assert!(!out.contains("SomeReplacement"));
}

#[test]
fn link_followed_by_digit_is_restored() {
    let out = process_body("[url=https://a.example]A[/url]5");
    assert_eq!(out, "[A](https://a.example)5");
}

#[test]
fn unmatched_link_is_escaped_as_text() {
    let out = process_body("[url=https://a.example]open");
    assert_eq!(out, "[url=https://a\\.example]open");
}

#[test]
fn body_without_links_is_only_escaped() {
    let out = process_body("plain text");
    assert_eq!(out, "plain text");
}

#[test]
fn restore_replaces_each_placeholder_in_order() {
    let frags = vec!["[url=x]A[/url]".to_string(), "[url=y]B[/url]".to_string()];
    let out = restore_links("SomeReplacement0 then SomeReplacement1", &frags);
    assert_eq!(out, "[url=x]A[/url] then [url=y]B[/url]");
}

#[test]
fn restore_keeps_eleven_fragments_in_their_slots() {
    let frags: Vec<String> = (0..11).map(|i| format!("[url=t{}]L{}[/url]", i, i)).collect();
    let text: String = (0..11).map(|i| format!("SomeReplacement{} ", i)).collect();
    let expected: String = (0..11).map(|i| format!("[url=t{}]L{}[/url] ", i, i)).collect();
    assert_eq!(restore_links(&text, &frags), expected);
}

#[test]
fn twelve_links_all_come_back() {
    let body: String = (0..12).map(|i| format!("[url=https://x{}]L{}[/url]{} ", i, i, i % 3)).collect();
    let expected: String = (0..12).map(|i| format!("[L{}](https://x{}){} ", i, i, i % 3)).collect();
    let out = process_body(&body);
    assert_eq!(out, expected);
    assert!(!out.contains("SomeReplacement"));
}

#[test]
fn empty_body_gives_empty_text() {
    assert_eq!(process_body(""), "");
}
