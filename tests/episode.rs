use transcript_marker::{
    and_items, and_names, and_names_on_x, get_episode_slug, get_name_on_x, get_transcript_url,
    prepare_html, EpisodeInfo, Link, Noun, PodcastInfo,
};

fn noun(name: &str, handle: Option<&str>) -> Noun {
    Noun {
        name: name.to_string(),
        x_handle: handle.map(|h| h.to_string()),
    }
}

fn episode(number: u16, title: &str) -> EpisodeInfo {
    EpisodeInfo {
        title: title.to_string(),
        number,
        description: "About robots.".to_string(),
        links: vec![Link {
            text: "Site".to_string(),
            href: "https://example.com/".to_string(),
        }],
        guests: vec![noun("Foo Bar", Some("foo"))],
        organization: None,
        youtube_video_url: None,
        x_post_url: None,
        spotify_for_podcasters_url: None,
    }
}

#[test]
fn and_items_lists_in_english() {
    let s = |v: &[&str]| v.iter().map(|x| x.to_string()).collect::<Vec<String>>();
    assert_eq!(and_items(&s(&[])), "");
    assert_eq!(and_items(&s(&["a"])), "a");
    assert_eq!(and_items(&s(&["a", "b"])), "a and b");
    assert_eq!(and_items(&s(&["a", "b", "c"])), "a, b, and c");
    assert_eq!(and_items(&s(&["a", "b", "c", "d"])), "a, b, c, and d");
}

#[test]
fn names_on_x_use_the_handle_when_there_is_one() {
    assert_eq!(get_name_on_x(&noun("Foo Bar", Some("foo"))), "@foo");
    assert_eq!(get_name_on_x(&noun("Foo Bar", None)), "Foo Bar");
    let nouns = vec![
        noun("Ann", Some("ann")),
        noun("Bob", None),
        noun("Cy", Some("cy")),
    ];
    assert_eq!(and_names_on_x(&nouns), "@ann, Bob, and @cy");
    assert_eq!(and_names(&nouns), "Ann, Bob, and Cy");
    assert_eq!(and_names(&nouns[..2]), "Ann and Bob");
}

#[test]
fn episode_slug_and_transcript_url() {
    let e = episode(12, "Hello, World! Robots & You");
    assert_eq!(get_episode_slug(&e), "12-hello-world-robots--you");
    let p = PodcastInfo {
        name: "Your great podcast".to_string(),
        transcript_site_url: "https://www.ygp.com/transcripts".to_string(),
        links: vec![],
    };
    assert_eq!(
        get_transcript_url(&e, &p),
        "https://www.ygp.com/transcripts/12-hello-world-robots--you.html"
    );
}

#[test]
fn prepare_html_breaks_lines() {
    assert_eq!(prepare_html("a\nb\n\nc"), "a<br/>b<br/><br/>c");
    assert_eq!(prepare_html(""), "");
    assert_eq!(prepare_html("no breaks"), "no breaks");
}
