use transcript_marker::{
    get_md_heading_url, get_md_table_of_contents, mark_transcript, slug, slug_from_lowercase,
    OutlineEntry, ParseOutlineError, TimeCode,
};

fn entry(hours: u32, minutes: u32, seconds: u32, text: &str) -> OutlineEntry {
    OutlineEntry {
        time_code: TimeCode {
            hours,
            minutes,
            seconds,
        },
        text: text.to_string(),
    }
}

#[test]
fn put_text_before_timecodes() {
    let mut outline_entries: Vec<OutlineEntry> = vec![
        OutlineEntry {
            time_code: TimeCode {
                hours: 0,
                minutes: 0,
                seconds: 0,
            },
            text: "Introduction".into(),
        },
        OutlineEntry {
            time_code: TimeCode {
                hours: 0,
                minutes: 1,
                seconds: 30,
            },
            text: "Nag and Mike introduce themselves".into(),
        },
        OutlineEntry {
            time_code: TimeCode {
                hours: 0,
                minutes: 3,
                seconds: 09,
            },
            text: "Nag and Mike introduce electric sheep".into(),
        },
    ];

    let transcript = r#"[00:00:00] **Audrow Nash:** I've talked to a lot of people about this interview, and I'm excited that I get to share it with you. In it, I talk with Nag and Mike from Electric Sheep. They're doing many things differently than most robotics companies that I've talked to, and they're making big bets that I think will pay off. Here are three examples to show you what I mean.

First, they're throwing away classical robotics approaches, and instead... using machine learning. I'm not just talking about for perception or parameter optimization, but even for things like localization or high level control. Second, they've turned the lawn mowing problem on its head to make robots that are intrinsically safer.

And third, instead of selling their robots or doing a subscription model, they buy profitable landscaping businesses and give those companies robots. There are a lot of advantages to this last point and you'll see the details of each during the interview. I hope it surprises you as much as it did me. I think you'll enjoy this interview if you're curious about how AI and robotics can fit together in a real application and if you want to see a new robotics business model that I think will be very popular in the near future.

[00:01:37] **Nag Murty:** Yeah. Hi everyone. I'm Nag Murthy. I'm the CEO and co founder of Electric Sheep Robotics. 

And then over time, we plan to use those, automated robots to improve our own margins over time. So that's what we do. 

[00:03:09] **Michael Laskey:** Yeah, I can take that one."#;

    let new_transcript = mark_transcript(transcript, &mut outline_entries)
        .expect("Mark transcript should succeed");
    let expected = r##"## Table of Contents

- [[0:00] Introduction](#introduction)
- [[1:30] Nag and Mike introduce themselves](#nag-and-mike-introduce-themselves)
- [[3:09] Nag and Mike introduce electric sheep](#nag-and-mike-introduce-electric-sheep)

## Introduction

[00:00:00] **Audrow Nash:** I've talked to a lot of people about this interview, and I'm excited that I get to share it with you. In it, I talk with Nag and Mike from Electric Sheep. They're doing many things differently than most robotics companies that I've talked to, and they're making big bets that I think will pay off. Here are three examples to show you what I mean.

First, they're throwing away classical robotics approaches, and instead... using machine learning. I'm not just talking about for perception or parameter optimization, but even for things like localization or high level control. Second, they've turned the lawn mowing problem on its head to make robots that are intrinsically safer.

And third, instead of selling their robots or doing a subscription model, they buy profitable landscaping businesses and give those companies robots. There are a lot of advantages to this last point and you'll see the details of each during the interview. I hope it surprises you as much as it did me. I think you'll enjoy this interview if you're curious about how AI and robotics can fit together in a real application and if you want to see a new robotics business model that I think will be very popular in the near future.

## Nag and Mike introduce themselves

[00:01:37] **Nag Murty:** Yeah. Hi everyone. I'm Nag Murthy. I'm the CEO and co founder of Electric Sheep Robotics.

And then over time, we plan to use those, automated robots to improve our own margins over time. So that's what we do.

## Nag and Mike introduce electric sheep

[00:03:09] **Michael Laskey:** Yeah, I can take that one."##;
    assert_eq!(new_transcript, expected);
}

#[test]
fn get_md_heading_url_test() {
    assert_eq!(get_md_heading_url("Start"), "#start".to_string());
    assert_eq!(
        get_md_heading_url("Introducing Bradley + Luxonis"),
        "#introducing-bradley--luxonis".to_string()
    );
    assert_eq!(
        get_md_heading_url("Special characters!@#$%^&*()_+[]~><\u{1F44D}\u{1F916}"),
        "#special-characters".to_string()
    );
}

#[test]
fn garbled_symbols_keep_their_letters() {
    // The bytes of two emoji read in the wrong encoding: some of the
    // resulting characters are letters, and letters stay.
    assert_eq!(
        get_md_heading_url("Special characters!@#$%^&*()_+[]~><ðŸ‘ðŸ¤–"),
        "#special-characters\u{f0}\u{ff}\u{f0}\u{ff}".to_string()
    );
}

#[test]
fn slug_keeps_unicode_letters_and_digits() {
    assert_eq!(slug("\u{c9}t\u{c9} \u{0663}"), "\u{e9}t\u{e9}-\u{0663}");
    assert_eq!(get_md_heading_url("\u{e9}"), "#\u{e9}");
    assert_eq!(slug_from_lowercase("d\u{e9}j\u{e0} vu!"), "d\u{e9}j\u{e0}-vu");
    assert_eq!(slug_from_lowercase("ABC x"), "ABC-x");
}

#[test]
fn slug_examples() {
    assert_eq!(slug("Start"), "start");
    assert_eq!(slug("Introducing Bradley + Luxonis"), "introducing-bradley--luxonis");
    assert_eq!(slug("Q&A: 3 Robots, 2 Humans!"), "qa-3-robots-2-humans");
    assert_eq!(slug("Caf\u{e9} \u{1F916} time"), "caf\u{e9}--time");
    assert_eq!(slug("!!!"), "");
    assert_eq!(slug(""), "");
    assert_eq!(slug("a--b  c"), "a--b--c");
}

#[test]
fn marking_inserts_one_heading_per_cue() {
    let mut entries = vec![
        entry(0, 0, 0, "Intro"),
        entry(0, 1, 37, "Topic A"),
        entry(0, 3, 9, "Topic B"),
    ];
    let transcript = "[00:00:00] Hello\nsome talk\n[00:01:37] First topic\n[00:03:09] Second topic";
    let out = mark_transcript(transcript, &mut entries).unwrap();
    let expected = "## Table of Contents\n\n\
        - [[0:00] Intro](#intro)\n\
        - [[1:37] Topic A](#topic-a)\n\
        - [[3:09] Topic B](#topic-b)\n\
        \n## Intro\n\n[00:00:00] Hello\n\
        some talk\n\
        ## Topic A\n\n[00:01:37] First topic\n\
        ## Topic B\n\n[00:03:09] Second topic";
    assert_eq!(out, expected);
}

#[test]
fn a_bad_cue_fails_the_whole_marking() {
    let mut entries = vec![entry(0, 0, 0, "Intro")];
    let transcript = "[00:00:00] Hello\n[00:61:00] Broken\n[00:02:00] Later";
    match mark_transcript(transcript, &mut entries) {
        Err(ParseOutlineError::InvalidTimeCode(raw)) => assert_eq!(raw, "00:61:00"),
        other => panic!("unexpected result {:?}", other),
    }
}

#[test]
fn at_most_one_heading_goes_before_a_line() {
    let mut entries = vec![entry(0, 0, 10, "One"), entry(0, 0, 20, "Two")];
    let transcript = "[00:00:30] Late cue\n[00:00:40] Next cue\n[00:00:50] Last cue";
    let out = mark_transcript(transcript, &mut entries).unwrap();
    let body = out.split_once(")\n\n").unwrap().1;
    assert_eq!(
        body,
        "## One\n\n[00:00:30] Late cue\n## Two\n\n[00:00:40] Next cue\n[00:00:50] Last cue"
    );
}

#[test]
fn entries_are_sorted_stably_and_the_contents_follow_that_order() {
    let mut entries = vec![
        entry(0, 2, 0, "Second"),
        entry(0, 1, 0, "First b"),
        entry(0, 0, 30, "Opening"),
        entry(0, 1, 0, "First c"),
    ];
    let out = mark_transcript("", &mut entries).unwrap();
    let texts: Vec<&str> = entries.iter().map(|e| e.text.as_str()).collect();
    assert_eq!(texts, vec!["Opening", "First b", "First c", "Second"]);
    assert_eq!(
        out,
        "## Table of Contents\n\n\
         - [[0:30] Opening](#opening)\n\
         - [[1:00] First b](#first-b)\n\
         - [[1:00] First c](#first-c)\n\
         - [[2:00] Second](#second)\n"
    );
}

#[test]
fn only_leading_three_part_markers_are_cues() {
    let mut entries = vec![entry(0, 0, 0, "Intro")];
    let transcript = "[0:00:00] one-digit hours\n[00:00] two parts\nsaid [00:00:00] inside\n[00:00:00]no space\n  [00:00:05] indented  ";
    let out = mark_transcript(transcript, &mut entries).unwrap();
    let body = out.split_once(")\n\n").unwrap().1;
    assert_eq!(
        body,
        "[0:00:00] one-digit hours\n[00:00] two parts\nsaid [00:00:00] inside\n[00:00:00]no space\n[00:00:05] indented"
    );
}

#[test]
fn lines_are_trimmed_and_cues_match_hours_of_many_digits() {
    let mut entries = vec![entry(100, 0, 0, "Much later")];
    let transcript = "\t[99:59:59] before \r\n[100:00:00] now\u{3000}";
    let out = mark_transcript(transcript, &mut entries).unwrap();
    let body = out.split_once(")\n\n").unwrap().1;
    assert_eq!(body, "[99:59:59] before\n## Much later\n\n[100:00:00] now");
}

#[test]
fn table_of_contents_lists_entries_in_the_given_order() {
    let entries = vec![entry(1, 2, 3, "Deep Dive!"), entry(0, 0, 5, "Hi")];
    assert_eq!(
        get_md_table_of_contents(&entries),
        "- [[1:02:03] Deep Dive!](#deep-dive)\n- [[0:05] Hi](#hi)"
    );
    assert_eq!(get_md_table_of_contents(&vec![]), "");
}
