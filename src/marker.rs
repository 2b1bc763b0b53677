use vstd::prelude::*;
use crate::lines::{join_lines, line_ranges, lines_of};
use crate::outline::{
    entries_view, is_stable_sort, sort_by_time, string_of_range, OutlineEntry, ParseOutlineError,
};
use crate::slug::{push_slug, slug_of};
use crate::text::{chars_of, is_digit, push_char, push_range, push_str};
use crate::time_code::{
    hms_shape, is_hms_range, lemma_hms_chars, parse_range, push_time_code, time_code_of,
    time_code_text, time_le, TimeCode,
};

verus! {

/// The characters that `char::is_whitespace` accepts (Unicode `White_Space`).
pub open spec fn is_white(c: char) -> bool {
    ||| c == ' '
    ||| ('\t' <= c <= '\r')
    ||| c == '\u{85}'
    ||| c == '\u{a0}'
    ||| c == '\u{1680}'
    ||| ('\u{2000}' <= c <= '\u{200a}')
    ||| c == '\u{2028}'
    ||| c == '\u{2029}'
    ||| c == '\u{202f}'
    ||| c == '\u{205f}'
    ||| c == '\u{3000}'
}

/// `l` without its leading whitespace.
pub open spec fn trim_front(l: Seq<char>) -> Seq<char>
    decreases l.len(),
{
    if l.len() > 0 && is_white(l[0]) {
        trim_front(l.drop_first())
    } else {
        l
    }
}

/// `l` without its trailing whitespace.
pub open spec fn trim_back(l: Seq<char>) -> Seq<char>
    decreases l.len(),
{
    if l.len() > 0 && is_white(l.last()) {
        trim_back(l.drop_last())
    } else {
        l
    }
}

/// `l` without surrounding whitespace.
pub open spec fn trimmed(l: Seq<char>) -> Seq<char> {
    trim_back(trim_front(l))
}

fn is_white_exec(c: char) -> (r: bool)
    ensures
        r == is_white(c),
{
    c == ' ' || ('\t' <= c && c <= '\r') || c == '\u{85}' || c == '\u{a0}' || c == '\u{1680}' || (
    '\u{2000}' <= c && c <= '\u{200a}') || c == '\u{2028}' || c == '\u{2029}' || c == '\u{202f}'
        || c == '\u{205f}' || c == '\u{3000}'
}

/// The bounds of `cs[lo..hi]` without surrounding whitespace.
fn trim_range(cs: &Vec<char>, lo: usize, hi: usize) -> (r: (usize, usize))
    requires
        lo <= hi <= cs@.len(),
    ensures
        lo <= r.0 <= r.1 <= hi,
        cs@.subrange(r.0 as int, r.1 as int) == trimmed(cs@.subrange(lo as int, hi as int)),
{
    let mut a = lo;
    while a < hi && is_white_exec(cs[a])
        invariant
            lo <= a <= hi <= cs@.len(),
            trim_front(cs@.subrange(lo as int, hi as int)) == trim_front(
                cs@.subrange(a as int, hi as int),
            ),
        decreases hi - a,
    {
        assert(cs@.subrange(a as int, hi as int).drop_first() =~= cs@.subrange(a + 1, hi as int));
        a = a + 1;
    }
    let mut b = hi;
    while b > a && is_white_exec(cs[b - 1])
        invariant
            lo <= a <= b <= hi <= cs@.len(),
            trim_front(cs@.subrange(lo as int, hi as int)) == cs@.subrange(a as int, hi as int),
            trimmed(cs@.subrange(lo as int, hi as int)) == trim_back(
                cs@.subrange(a as int, b as int),
            ),
        decreases b - a,
    {
        assert(cs@.subrange(a as int, b as int).drop_last() =~= cs@.subrange(a as int, b - 1));
        b = b - 1;
    }
    (a, b)
}

/// `j` is the position of the `]` that closes the leading cue marker of
/// `l`: the line opens with `[`, then `H…:MM:SS` with at least two hour
/// digits, then `] `.
pub open spec fn cue_close(l: Seq<char>, j: int) -> bool {
    &&& 9 <= j
    &&& j + 1 < l.len()
    &&& l[0] == '['
    &&& l[j] == ']'
    &&& l[j + 1] == ' '
    &&& hms_shape(l.subrange(1, j))
}

/// A cue line opens with a bracketed time marker.
pub open spec fn is_cue(l: Seq<char>) -> bool {
    exists|j: int| cue_close(l, j)
}

/// The time-code text between the brackets of a cue line.
pub open spec fn cue_marker(l: Seq<char>) -> Seq<char> {
    l.subrange(1, choose|j: int| cue_close(l, j))
}

/// The time of a cue line whose marker is a valid time code.
pub open spec fn cue_time(l: Seq<char>) -> TimeCode {
    time_code_of(cue_marker(l))->Some_0
}

/// A line is fine unless it is a cue line whose marker is no valid time
/// code.
pub open spec fn cue_ok(l: Seq<char>) -> bool {
    is_cue(l) ==> time_code_of(cue_marker(l)) is Some
}

/// The position of the `]` closing the cue marker of the line `cs[lo..hi]`,
/// if it is a cue line.
fn find_cue(cs: &Vec<char>, lo: usize, hi: usize) -> (r: Option<usize>)
    requires
        lo <= hi <= cs@.len(),
    ensures
        is_cue(cs@.subrange(lo as int, hi as int)) <==> r is Some,
        r is Some ==> {
            &&& lo < r->Some_0 < hi
            &&& cue_close(cs@.subrange(lo as int, hi as int), r->Some_0 - lo)
            &&& cue_marker(cs@.subrange(lo as int, hi as int)) == cs@.subrange(
                lo + 1,
                r->Some_0 as int,
            )
        },
{
    let ghost l = cs@.subrange(lo as int, hi as int);
    if hi - lo < 11 || cs[lo] != '[' {
        assert(!is_cue(l));
        return None;
    }
    let mut k = lo + 1;
    while k < hi && (('0' <= cs[k] && cs[k] <= '9') || cs[k] == ':')
        invariant
            lo < k <= hi <= cs@.len(),
            forall|q: int| lo < q < k ==> is_digit(#[trigger] cs@[q]) || cs@[q] == ':',
        decreases hi - k,
    {
        k = k + 1;
    }
    // Any closing bracket of a cue stands where the run of digits and colons ends.
    assert forall|j: int| cue_close(l, j) implies j == k - lo by {
        lemma_hms_chars(l.subrange(1, j));
        if j < k - lo {
            assert(l[j] == cs@[lo + j]);
        } else if j > k - lo {
            assert(l.subrange(1, j)[k - lo - 1] == cs@[k as int]);
        }
    }
    if hi - k > 1 && k - lo >= 9 && cs[k] == ']' && cs[k + 1] == ' ' && is_hms_range(cs, lo + 1, k) {
        let ghost j = k - lo;
        assert(l.subrange(1, j) =~= cs@.subrange(lo + 1, k as int));
        assert(cue_close(l, j));
        let ghost c = choose|j: int| cue_close(l, j);
        assert(cue_close(l, c));
        assert(cue_marker(l) =~= cs@.subrange(lo + 1, k as int));
        Some(k)
    } else {
        assert(!is_cue(l)) by {
            if is_cue(l) {
                let j = choose|j: int| cue_close(l, j);
                assert(cue_close(l, j));
                assert(l.subrange(1, j) =~= cs@.subrange(lo + 1, k as int));
            }
        }
        None
    }
}

/// The bullet of one entry in the table of contents:
/// `- [[<time code>] <label>](#<anchor>)`.
pub open spec fn toc_bullet(e: (TimeCode, Seq<char>)) -> Seq<char> {
    seq!['-', ' ', '[', '['] + time_code_text(e.0) + seq![']', ' '] + e.1 + seq![
        ']',
        '(',
        '#',
    ] + slug_of(e.1) + seq![')']
}

/// The table of contents: one bullet per entry, in order, joined by
/// newlines.
pub open spec fn toc_text(es: Seq<(TimeCode, Seq<char>)>) -> Seq<char> {
    join_lines(es.map_values(|e: (TimeCode, Seq<char>)| toc_bullet(e)))
}

/// Appends the bullet of `e` to `out`.
fn push_bullet(out: &mut String, e: &OutlineEntry)
    ensures
        final(out)@ == old(out)@ + toc_bullet(e@),
{
    push_char(out, '-');
    push_char(out, ' ');
    push_char(out, '[');
    push_char(out, '[');
    push_time_code(out, &e.time_code);
    push_char(out, ']');
    push_char(out, ' ');
    push_str(out, e.text.as_str());
    push_char(out, ']');
    push_char(out, '(');
    push_char(out, '#');
    push_slug(out, e.text.as_str());
    push_char(out, ')');
    assert(out@ =~= old(out)@ + toc_bullet(e@));
}

/// The Markdown table of contents of the entries, in their order: one
/// bullet per entry linking to the anchor of its heading.
pub fn get_md_table_of_contents(outline_entries: &Vec<OutlineEntry>) -> (r: String)
    ensures
        r@ == toc_text(entries_view(outline_entries@)),
{
    let ghost bullets = entries_view(outline_entries@).map_values(
        |e: (TimeCode, Seq<char>)| toc_bullet(e),
    );
    let mut r = String::new();
    let mut i: usize = 0;
    assert(bullets.take(0) =~= Seq::<Seq<char>>::empty());
    while i < outline_entries.len()
        invariant
            i <= outline_entries@.len(),
            bullets == entries_view(outline_entries@).map_values(
                |e: (TimeCode, Seq<char>)| toc_bullet(e),
            ),
            r@ == join_lines(bullets.take(i as int)),
        decreases outline_entries@.len() - i,
    {
        let ghost prev = r@;
        if i > 0 {
            push_char(&mut r, '\n');
        }
        push_bullet(&mut r, &outline_entries[i]);
        assert(bullets.take(i + 1).drop_last() =~= bullets.take(i as int));
        assert(bullets[i as int] == toc_bullet(outline_entries@[i as int]@));
        if i == 0 {
            assert(prev =~= Seq::<char>::empty());
            assert(r@ =~= bullets[0]);
        } else {
            assert(r@ =~= prev + seq!['\n'] + bullets[i as int]);
        }
        i = i + 1;
    }
    assert(bullets.take(i as int) =~= bullets);
    r
}

/// The heading inserted before a cue line: `## <label>` and a newline.
pub open spec fn heading(label: Seq<char>) -> Seq<char> {
    seq!['#', '#', ' '] + label + seq!['\n']
}

/// The single pass over the transcript lines `ls` with the entries `es`
/// pending in order: each line, trimmed, becomes an item; a cue line whose
/// time reaches or passes the time of the next pending entry is preceded by
/// that entry's heading, and that entry is no longer pending. At most one
/// heading goes before a line. Gives the items and how many entries were
/// taken.
pub open spec fn merge(ls: Seq<Seq<char>>, es: Seq<(TimeCode, Seq<char>)>) -> (Seq<Seq<char>>, nat)
    decreases ls.len(),
{
    if ls.len() == 0 {
        (Seq::empty(), 0)
    } else {
        let before = merge(ls.drop_last(), es);
        let items = before.0;
        let k = before.1;
        let l = ls.last();
        if is_cue(l) && k < es.len() && time_le(es[k as int].0, cue_time(l)) {
            (items.push(heading(es[k as int].1)).push(trimmed(l)), k + 1)
        } else {
            (items.push(trimmed(l)), k)
        }
    }
}

/// The items, each preceded by a newline.
pub open spec fn each_on_new_line(items: Seq<Seq<char>>) -> Seq<char>
    decreases items.len(),
{
    if items.len() == 0 {
        Seq::empty()
    } else {
        each_on_new_line(items.drop_last()) + seq!['\n'] + items.last()
    }
}

/// The title that opens a marked transcript, with the blank line after it.
pub open spec fn toc_title() -> Seq<char> {
    "## Table of Contents\n\n"@
}

/// The marked transcript: the title, the table of contents of `es`, then the
/// merged lines of the transcript `doc`, each on a line of its own.
pub open spec fn marked_text(doc: Seq<char>, es: Seq<(TimeCode, Seq<char>)>) -> Seq<char> {
    toc_title() + toc_text(es) + seq!['\n'] + each_on_new_line(merge(lines_of(doc), es).0)
}

/// No cue line of the transcript has a marker that is no valid time code.
pub open spec fn transcript_ok(doc: Seq<char>) -> bool {
    forall|i: int| 0 <= i < lines_of(doc).len() ==> cue_ok(#[trigger] lines_of(doc)[i])
}

/// `e` reports the marker of the first cue line of `doc` whose marker is no
/// valid time code.
pub open spec fn transcript_error(e: ParseOutlineError, doc: Seq<char>) -> bool {
    exists|k: int|
        {
            &&& 0 <= k < lines_of(doc).len()
            &&& forall|j: int| 0 <= j < k ==> cue_ok(#[trigger] lines_of(doc)[j])
            &&& !cue_ok(lines_of(doc)[k])
            &&& e.is_invalid_time_code(cue_marker(lines_of(doc)[k]))
        }
}

/// One cue line whose marker is no valid time code (a minute or second
/// above 59, say) makes the whole transcript unacceptable, wherever it
/// stands; marking then fails and gives no document.
pub proof fn lemma_bad_cue_is_fatal(doc: Seq<char>, k: int)
    requires
        0 <= k < lines_of(doc).len(),
        is_cue(lines_of(doc)[k]),
        time_code_of(cue_marker(lines_of(doc)[k])) is None,
    ensures
        !transcript_ok(doc),
{
    assert(!cue_ok(lines_of(doc)[k]));
}

/// Marks a transcript with the outline: sorts the entries by time code
/// (stably, in place), then writes the table of contents and the transcript
/// lines, trimmed, with each entry's heading before the first cue line that
/// reaches its time, at most one heading per line. A cue line whose marker
/// is no valid time code fails the whole operation.
pub fn mark_transcript(text: &str, outline_entries: &mut Vec<OutlineEntry>) -> (r: Result<
    String,
    ParseOutlineError,
>)
    ensures
        is_stable_sort(final(outline_entries)@, old(outline_entries)@),
        transcript_ok(text@) <==> r is Ok,
        r is Ok ==> r->Ok_0@ == marked_text(text@, entries_view(final(outline_entries)@)),
        r is Err ==> transcript_error(r->Err_0, text@),
{
    sort_by_time(outline_entries);
    let ghost es = entries_view(outline_entries@);
    let mut out = String::new();
    push_str(&mut out, "## Table of Contents\n\n");
    let toc = get_md_table_of_contents(outline_entries);
    push_str(&mut out, toc.as_str());
    push_char(&mut out, '\n');
    let ghost head = out@;
    let cs = chars_of(text);
    let ranges = line_ranges(&cs);
    let ghost ls = lines_of(text@);
    let mut next: usize = 0;
    let mut i: usize = 0;
    assert(ls.take(0) =~= Seq::<Seq<char>>::empty());
    while i < ranges.len()
        invariant
            cs@ == text@,
            ls == lines_of(text@),
            es == entries_view(outline_entries@),
            is_stable_sort(outline_entries@, old(outline_entries)@),
            head == toc_title() + toc_text(es) + seq!['\n'],
            ranges@.len() == ls.len(),
            forall|k: int|
                0 <= k < ranges@.len() ==> {
                    &&& (#[trigger] ranges@[k]).0 <= ranges@[k].1 <= cs@.len()
                    &&& cs@.subrange(ranges@[k].0 as int, ranges@[k].1 as int) == ls[k]
                },
            i <= ranges@.len(),
            forall|j: int| 0 <= j < i ==> cue_ok(#[trigger] ls[j]),
            next <= outline_entries@.len(),
            next == merge(ls.take(i as int), es).1,
            out@ == head + each_on_new_line(merge(ls.take(i as int), es).0),
        decreases ranges@.len() - i,
    {
        let (lo, hi) = ranges[i];
        let ghost l = ls[i as int];
        let ghost prev = merge(ls.take(i as int), es);
        assert(ls.take(i + 1).drop_last() =~= ls.take(i as int));
        assert(ls.take(i + 1).last() == l);
        assert(cs@.subrange(lo as int, hi as int) == l);
        let ghost before = out@;
        let ghost mut headed = false;
        match find_cue(&cs, lo, hi) {
            Some(j) => {
                match parse_range(&cs, lo + 1, j) {
                    Some(t) => {
                        if next < outline_entries.len() && outline_entries[next].time_code <= t {
                            push_char(&mut out, '\n');
                            push_char(&mut out, '#');
                            push_char(&mut out, '#');
                            push_char(&mut out, ' ');
                            push_str(&mut out, outline_entries[next].text.as_str());
                            push_char(&mut out, '\n');
                            assert(out@ =~= before + seq!['\n'] + heading(es[next as int].1));
                            proof {
                                headed = true;
                            }
                            next = next + 1;
                        }
                    },
                    None => {
                        let marker = string_of_range(&cs, lo + 1, j);
                        let e = ParseOutlineError::InvalidTimeCode(marker);
                        assert(transcript_error(e, text@)) by {
                            assert(!cue_ok(ls[i as int]));
                        }
                        return Err(e);
                    },
                }
            },
            None => {},
        }
        let ghost mid = out@;
        let (a, b) = trim_range(&cs, lo, hi);
        push_char(&mut out, '\n');
        push_range(&mut out, &cs, a, b);
        assert(out@ =~= mid + seq!['\n'] + trimmed(l));
        proof {
            let cur = merge(ls.take(i + 1), es);
            if headed {
                let h = heading(es[prev.1 as int].1);
                assert(cur == (prev.0.push(h).push(trimmed(l)), prev.1 + 1));
                assert(cur.0.drop_last() =~= prev.0.push(h));
                assert(prev.0.push(h).drop_last() =~= prev.0);
                assert(each_on_new_line(cur.0) == each_on_new_line(prev.0.push(h)) + seq!['\n']
                    + trimmed(l));
                assert(each_on_new_line(prev.0.push(h)) == each_on_new_line(prev.0) + seq!['\n']
                    + h);
            } else {
                assert(cur == (prev.0.push(trimmed(l)), prev.1));
                assert(cur.0.drop_last() =~= prev.0);
            }
            assert(out@ =~= head + each_on_new_line(cur.0));
        }
        i = i + 1;
    }
    assert(ls.take(i as int) =~= ls);
    Ok(out)
}

} // verus!
