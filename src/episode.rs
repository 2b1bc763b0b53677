use vstd::prelude::*;
use crate::slug::{push_slug, slug_of};
use crate::text::{decimal, decimal_chars, push_char, push_chars, push_str};

verus! {

/// A link shown in a description.
#[derive(Clone, Debug)]
pub struct Link {
    pub text: String,
    pub href: String,
}

/// A person or organisation, with an optional handle on X.
#[derive(Clone, Debug)]
pub struct Noun {
    pub name: String,
    pub x_handle: Option<String>,
}

/// What is known of one episode.
#[derive(Clone, Debug)]
pub struct EpisodeInfo {
    pub title: String,
    pub number: u16,
    pub description: String,
    pub links: Vec<Link>,
    pub guests: Vec<Noun>,
    pub organization: Option<Noun>,
    pub youtube_video_url: Option<String>,
    pub x_post_url: Option<String>,
    pub spotify_for_podcasters_url: Option<String>,
}

/// What is known of the podcast.
#[derive(Clone, Debug)]
pub struct PodcastInfo {
    pub name: String,
    pub transcript_site_url: String,
    pub links: Vec<Link>,
}

/// The texts of `ls` joined by `sep`.
pub open spec fn join_with(ls: Seq<Seq<char>>, sep: Seq<char>) -> Seq<char>
    decreases ls.len(),
{
    if ls.len() == 0 {
        Seq::empty()
    } else if ls.len() == 1 {
        ls[0]
    } else {
        join_with(ls.drop_last(), sep) + sep + ls.last()
    }
}

/// An English list: nothing, one item, `a and b`, or `a, b, and c` (with
/// the serial comma) for three or more.
pub open spec fn and_list(items: Seq<Seq<char>>) -> Seq<char> {
    if items.len() == 0 {
        Seq::empty()
    } else if items.len() == 1 {
        items[0]
    } else if items.len() == 2 {
        items[0] + " and "@ + items[1]
    } else {
        join_with(items.drop_last(), ", "@) + ", and "@ + items.last()
    }
}

/// The texts of a list of strings.
pub open spec fn texts(s: Seq<String>) -> Seq<Seq<char>> {
    s.map_values(|x: String| x@)
}

/// How a noun is named on X: `@handle` when it has one, else its name.
pub open spec fn name_on_x(n: Noun) -> Seq<char> {
    match n.x_handle {
        Some(h) => seq!['@'] + h@,
        None => n.name@,
    }
}

/// Lists the items in English: `a`, `a and b`, `a, b, and c`.
pub fn and_items(items: &[String]) -> (r: String)
    ensures
        r@ == and_list(texts(items@)),
{
    let n = items.len();
    let ghost ts = texts(items@);
    if n == 0 {
        return String::new();
    }
    if n == 1 {
        return items[0].clone();
    }
    let mut r = String::new();
    if n == 2 {
        push_str(&mut r, items[0].as_str());
        push_str(&mut r, " and ");
        push_str(&mut r, items[1].as_str());
        return r;
    }
    let mut i: usize = 0;
    assert(ts.drop_last().take(0) =~= Seq::<Seq<char>>::empty());
    while i < n - 1
        invariant
            n == items@.len(),
            n >= 3,
            ts == texts(items@),
            i <= n - 1,
            r@ == join_with(ts.drop_last().take(i as int), ", "@),
        decreases n - 1 - i,
    {
        let ghost prev = r@;
        if i > 0 {
            push_str(&mut r, ", ");
        }
        push_str(&mut r, items[i].as_str());
        let ghost part = ts.drop_last().take(i + 1);
        assert(part.drop_last() =~= ts.drop_last().take(i as int));
        assert(part.last() == items@[i as int]@);
        if i == 0 {
            assert(r@ =~= part[0]);
        } else {
            assert(r@ =~= prev + ", "@ + part.last());
        }
        i = i + 1;
    }
    assert(ts.drop_last().take(i as int) =~= ts.drop_last());
    push_str(&mut r, ", and ");
    push_str(&mut r, items[n - 1].as_str());
    r
}

/// How the noun is named on X: `@` and its handle when it has one, else its
/// name.
pub fn get_name_on_x(noun: &Noun) -> (r: String)
    ensures
        r@ == name_on_x(*noun),
{
    match &noun.x_handle {
        Some(x_handle) => {
            let mut r = String::new();
            push_char(&mut r, '@');
            push_str(&mut r, x_handle.as_str());
            r
        },
        None => noun.name.clone(),
    }
}

/// Lists the nouns by their names on X, in English.
pub fn and_names_on_x(nouns: &[Noun]) -> (r: String)
    ensures
        r@ == and_list(nouns@.map_values(|n: Noun| name_on_x(n))),
{
    let mut names: Vec<String> = Vec::new();
    let mut i: usize = 0;
    while i < nouns.len()
        invariant
            i <= nouns@.len(),
            texts(names@) =~= nouns@.take(i as int).map_values(|n: Noun| name_on_x(n)),
        decreases nouns@.len() - i,
    {
        let name = get_name_on_x(&nouns[i]);
        let ghost prev = names@;
        names.push(name);
        assert(names@ == prev.push(name));
        assert(texts(names@) =~= texts(prev).push(name@));
        assert(nouns@.take(i + 1) =~= nouns@.take(i as int).push(nouns@[i as int]));
        i = i + 1;
    }
    assert(nouns@.take(i as int) =~= nouns@);
    and_items(names.as_slice())
}

/// Lists the nouns by name, in English.
pub fn and_names(nouns: &[Noun]) -> (r: String)
    ensures
        r@ == and_list(nouns@.map_values(|n: Noun| n.name@)),
{
    let mut names: Vec<String> = Vec::new();
    let mut i: usize = 0;
    while i < nouns.len()
        invariant
            i <= nouns@.len(),
            texts(names@) =~= nouns@.take(i as int).map_values(|n: Noun| n.name@),
        decreases nouns@.len() - i,
    {
        let name = nouns[i].name.clone();
        let ghost prev = names@;
        names.push(name);
        assert(names@ == prev.push(name));
        assert(texts(names@) =~= texts(prev).push(name@));
        assert(nouns@.take(i + 1) =~= nouns@.take(i as int).push(nouns@[i as int]));
        i = i + 1;
    }
    assert(nouns@.take(i as int) =~= nouns@);
    and_items(names.as_slice())
}

/// The anchor-style slug of an episode: its number, a space and its title,
/// made into an anchor.
pub open spec fn episode_slug(e: EpisodeInfo) -> Seq<char> {
    slug_of(decimal(e.number as nat) + seq![' '] + e.title@)
}

/// The slug of an episode, from its number and title.
pub fn get_episode_slug(episode: &EpisodeInfo) -> (r: String)
    ensures
        r@ == episode_slug(*episode),
{
    let mut text = String::new();
    push_chars(&mut text, &decimal_chars(episode.number as u32));
    push_char(&mut text, ' ');
    push_str(&mut text, episode.title.as_str());
    assert(text@ =~= decimal(episode.number as nat) + seq![' '] + episode.title@);
    let mut r = String::new();
    push_slug(&mut r, text.as_str());
    assert(r@ =~= episode_slug(*episode));
    r
}

/// The address of an episode's transcript page on the podcast's transcript
/// site: `<site>/<episode slug>.html`.
pub fn get_transcript_url(episode: &EpisodeInfo, podcast_info: &PodcastInfo) -> (r: String)
    ensures
        r@ == podcast_info.transcript_site_url@ + seq!['/'] + episode_slug(*episode)
            + ".html"@,
{
    let slug = get_episode_slug(episode);
    let mut r = String::new();
    push_str(&mut r, podcast_info.transcript_site_url.as_str());
    push_char(&mut r, '/');
    push_str(&mut r, slug.as_str());
    push_str(&mut r, ".html");
    r
}

/// `s` with every newline replaced by an HTML line break `<br/>`.
pub open spec fn html_breaks(s: Seq<char>) -> Seq<char>
    decreases s.len(),
{
    if s.len() == 0 {
        Seq::empty()
    } else if s.last() == '\n' {
        html_breaks(s.drop_last()) + "<br/>"@
    } else {
        html_breaks(s.drop_last()).push(s.last())
    }
}

/// Turns each newline of the text into an HTML line break.
pub fn prepare_html(text: &str) -> (r: String)
    ensures
        r@ == html_breaks(text@),
{
    let cs = crate::text::chars_of(text);
    let mut r = String::new();
    let mut i: usize = 0;
    assert(cs@.take(0) =~= Seq::<char>::empty());
    while i < cs.len()
        invariant
            cs@ == text@,
            i <= cs@.len(),
            r@ == html_breaks(cs@.take(i as int)),
        decreases cs@.len() - i,
    {
        assert(cs@.take(i + 1).drop_last() =~= cs@.take(i as int));
        if cs[i] == '\n' {
            push_str(&mut r, "<br/>");
        } else {
            push_char(&mut r, cs[i]);
        }
        i = i + 1;
    }
    assert(cs@.take(i as int) =~= cs@);
    r
}

} // verus!
