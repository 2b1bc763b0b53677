use vstd::prelude::*;
use crate::lines::{
    has_no_newline, join_lines, lemma_lines_of_join, line_ranges, lines_of, strip_cr,
};
use crate::text::{chars_of, is_digit, push_range, push_str};
use crate::time_code::{
    is_digit_char, lemma_round_trip, lemma_text_chars, lemma_total_order, parse_range,
    time_code_of, time_code_text, time_le, TimeCode,
};

verus! {

/// The two ways a document can be refused; each carries the offending raw
/// text.
#[derive(Debug)]
pub enum ParseOutlineError {
    /// A time-code token failed its shape or range check.
    InvalidTimeCode(String),
    /// An outline line lacked a time-code token followed by a label.
    InvalidOutlineEntry(String),
}

impl ParseOutlineError {
    pub open spec fn is_invalid_time_code(&self, raw: Seq<char>) -> bool {
        match self {
            ParseOutlineError::InvalidTimeCode(s) => s@ == raw,
            _ => false,
        }
    }

    pub open spec fn is_invalid_outline_entry(&self, raw: Seq<char>) -> bool {
        match self {
            ParseOutlineError::InvalidOutlineEntry(s) => s@ == raw,
            _ => false,
        }
    }

    /// The message for a reader: what was refused, and the raw text.
    pub fn to_string(&self) -> (r: String)
        ensures
            r@ == match self {
                ParseOutlineError::InvalidTimeCode(s) => "Invalid time code: "@ + s@,
                ParseOutlineError::InvalidOutlineEntry(s) => "Invalid outline entry: "@ + s@,
            },
    {
        let mut r = String::new();
        match self {
            ParseOutlineError::InvalidTimeCode(s) => {
                push_str(&mut r, "Invalid time code: ");
                push_str(&mut r, s.as_str());
            },
            ParseOutlineError::InvalidOutlineEntry(s) => {
                push_str(&mut r, "Invalid outline entry: ");
                push_str(&mut r, s.as_str());
            },
        }
        r
    }
}

/// A labelled point of an outline.
#[derive(Clone, Debug, PartialEq, Eq)]
pub struct OutlineEntry {
    pub time_code: TimeCode,
    pub text: String,
}

impl View for OutlineEntry {
    type V = (TimeCode, Seq<char>);

    open spec fn view(&self) -> (TimeCode, Seq<char>) {
        (self.time_code, self.text@)
    }
}

/// The time codes and labels of a list of entries.
pub open spec fn entries_view(s: Seq<OutlineEntry>) -> Seq<(TimeCode, Seq<char>)> {
    s.map_values(|e: OutlineEntry| e@)
}

/// `i` is the position of the first space of `l`.
pub open spec fn is_first_space(l: Seq<char>, i: int) -> bool {
    &&& 0 <= i < l.len()
    &&& l[i] == ' '
    &&& forall|j: int| 0 <= j < i ==> l[j] != ' '
}

pub open spec fn has_space(l: Seq<char>) -> bool {
    exists|i: int| 0 <= i < l.len() && l[i] == ' '
}

pub open spec fn first_space(l: Seq<char>) -> int {
    choose|i: int| is_first_space(l, i)
}

/// The text before the first space.
pub open spec fn token_of(l: Seq<char>) -> Seq<char> {
    l.take(first_space(l))
}

/// The text after the first space.
pub open spec fn label_of(l: Seq<char>) -> Seq<char> {
    l.skip(first_space(l) + 1)
}

/// A non-empty run of digits and colons.
pub open spec fn is_time_token(t: Seq<char>) -> bool {
    &&& t.len() > 0
    &&& forall|i: int| 0 <= i < t.len() ==> is_digit(#[trigger] t[i]) || t[i] == ':'
}

/// An outline line has the form `<time-code token> <non-empty label>`.
pub open spec fn well_formed_line(l: Seq<char>) -> bool {
    &&& has_space(l)
    &&& is_time_token(token_of(l))
    &&& label_of(l).len() > 0
}

/// A well-formed line whose token is a valid time code.
pub open spec fn line_ok(l: Seq<char>) -> bool {
    well_formed_line(l) && time_code_of(token_of(l)) is Some
}

/// The entry that an accepted line denotes.
pub open spec fn line_entry(l: Seq<char>) -> (TimeCode, Seq<char>) {
    (time_code_of(token_of(l))->Some_0, label_of(l))
}

/// `e` is the error that the refused line `l` raises: a malformed line is
/// an invalid entry; a well-formed one with a bad token an invalid time code.
pub open spec fn line_error(e: ParseOutlineError, l: Seq<char>) -> bool {
    if !well_formed_line(l) {
        e.is_invalid_outline_entry(l)
    } else {
        e.is_invalid_time_code(token_of(l))
    }
}

/// Every line of the document is accepted.
pub open spec fn outline_ok(doc: Seq<char>) -> bool {
    forall|i: int| 0 <= i < lines_of(doc).len() ==> line_ok(#[trigger] lines_of(doc)[i])
}

/// The entries of an accepted document, in document order.
pub open spec fn outline_entries(doc: Seq<char>) -> Seq<(TimeCode, Seq<char>)> {
    lines_of(doc).map_values(|l: Seq<char>| line_entry(l))
}

/// `e` is the error of the first refused line of `doc`.
pub open spec fn outline_error(e: ParseOutlineError, doc: Seq<char>) -> bool {
    exists|k: int|
        {
            &&& 0 <= k < lines_of(doc).len()
            &&& forall|j: int| 0 <= j < k ==> line_ok(#[trigger] lines_of(doc)[j])
            &&& !line_ok(lines_of(doc)[k])
            &&& line_error(e, lines_of(doc)[k])
        }
}

/// The outline line of an entry: its time-code text, a space, its label.
pub open spec fn entry_line(e: (TimeCode, Seq<char>)) -> Seq<char> {
    time_code_text(e.0) + seq![' '] + e.1
}

/// The outline document of a list of entries: one entry line each, joined
/// by newlines.
pub open spec fn outline_document(es: Seq<(TimeCode, Seq<char>)>) -> Seq<char> {
    join_lines(es.map_values(|e: (TimeCode, Seq<char>)| entry_line(e)))
}

/// A label that stands on one line: non-empty, without a newline, and not
/// ending in a carriage return.
pub open spec fn is_label(t: Seq<char>) -> bool {
    &&& t.len() > 0
    &&& has_no_newline(t)
    &&& t.last() != '\r'
}

/// Parsing the document built from entries with valid time codes and
/// one-line labels accepts every line and gives the same entries back, in
/// the same order.
pub proof fn lemma_outline_round_trip(es: Seq<(TimeCode, Seq<char>)>)
    requires
        forall|i: int| 0 <= i < es.len() ==> (#[trigger] es[i]).0.valid() && is_label(es[i].1),
    ensures
        outline_ok(outline_document(es)),
        outline_entries(outline_document(es)) == es,
{
    let ls = es.map_values(|e: (TimeCode, Seq<char>)| entry_line(e));
    assert forall|i: int| 0 <= i < ls.len() implies has_no_newline(#[trigger] ls[i]) && strip_cr(
        ls[i],
    ) == ls[i] && line_ok(ls[i]) && line_entry(ls[i]) == es[i] by {
        lemma_entry_line(es[i]);
    }
    lemma_lines_of_join(ls);
    assert(outline_entries(outline_document(es)) =~= es);
}

proof fn lemma_entry_line(e: (TimeCode, Seq<char>))
    requires
        e.0.valid(),
        is_label(e.1),
    ensures
        has_no_newline(entry_line(e)),
        strip_cr(entry_line(e)) == entry_line(e),
        line_ok(entry_line(e)),
        line_entry(entry_line(e)) == e,
{
    let t = time_code_text(e.0);
    let l = entry_line(e);
    lemma_text_chars(e.0);
    lemma_round_trip(e.0);
    let k = t.len() as int;
    assert(l[k] == ' ');
    assert forall|j: int| 0 <= j < k implies l[j] != ' ' by {
        assert(l[j] == t[j]);
    }
    assert(is_first_space(l, k));
    assert(first_space(l) == k) by {
        let f = first_space(l);
        assert(is_first_space(l, f));
        if f < k {
            assert(l[f] != ' ');
        } else if f > k {
            assert(l[k] != ' ');
        }
    }
    assert(token_of(l) =~= t);
    assert(label_of(l) =~= e.1);
    assert forall|i: int| 0 <= i < l.len() implies l[i] != '\n' by {
        if i < k {
            assert(l[i] == t[i]);
        } else if i > k {
            assert(l[i] == e.1[i - k - 1]);
        }
    }
    assert(l.last() == e.1.last());
}

/// The entries are in ascending order of time code.
pub open spec fn sorted_by_time(s: Seq<OutlineEntry>) -> bool {
    forall|i: int, j: int|
        0 <= i < j < s.len() ==> time_le(#[trigger] s[i].time_code, #[trigger] s[j].time_code)
}

/// The entries of `s` at time code `t`, in their order in `s`.
pub open spec fn at_time(s: Seq<OutlineEntry>, t: TimeCode) -> Seq<OutlineEntry> {
    s.filter(|e: OutlineEntry| e.time_code == t)
}

/// `r` is `s` sorted by time code, entries with equal time codes keeping
/// their relative order.
pub open spec fn is_stable_sort(r: Seq<OutlineEntry>, s: Seq<OutlineEntry>) -> bool {
    &&& sorted_by_time(r)
    &&& forall|t: TimeCode| #[trigger] at_time(r, t) == at_time(s, t)
}

proof fn lemma_filter_push(s: Seq<OutlineEntry>, x: OutlineEntry, t: TimeCode)
    ensures
        at_time(s.push(x), t) == if x.time_code == t {
            at_time(s, t).push(x)
        } else {
            at_time(s, t)
        },
{
    reveal(Seq::filter);
    assert(s.push(x).drop_last() =~= s);
}

proof fn lemma_at_time_add(a: Seq<OutlineEntry>, b: Seq<OutlineEntry>, t: TimeCode)
    ensures
        at_time(a + b, t) == at_time(a, t) + at_time(b, t),
{
    Seq::filter_distributes_over_add(a, b, |e: OutlineEntry| e.time_code == t);
}

proof fn lemma_filter_none(s: Seq<OutlineEntry>, t: TimeCode)
    requires
        forall|i: int| 0 <= i < s.len() ==> (#[trigger] s[i]).time_code != t,
    ensures
        at_time(s, t) == Seq::<OutlineEntry>::empty(),
    decreases s.len(),
{
    reveal(Seq::filter);
    if s.len() > 0 {
        lemma_filter_none(s.drop_last(), t);
    }
}

/// Sorts the entries by time code, keeping the input order among entries
/// with equal time codes.
pub fn sort_by_time(v: &mut Vec<OutlineEntry>)
    ensures
        is_stable_sort(final(v)@, old(v)@),
{
    let mut rest: Vec<OutlineEntry> = Vec::new();
    std::mem::swap(v, &mut rest);
    let ghost orig = rest@;
    let n = rest.len();
    let mut i: usize = 0;
    assert(orig.take(0) =~= Seq::<OutlineEntry>::empty());
    while rest.len() > 0
        invariant
            orig == old(v)@,
            orig.len() == n,
            i <= orig.len(),
            rest@ == orig.skip(i as int),
            rest@.len() == orig.len() - i,
            sorted_by_time(v@),
            forall|t: TimeCode| #[trigger] at_time(v@, t) == at_time(orig.take(i as int), t),
        decreases rest@.len(),
    {
        let e = rest.remove(0);
        assert(e == orig[i as int]);
        let mut p: usize = 0;
        while p < v.len() && v[p].time_code <= e.time_code
            invariant
                p <= v@.len(),
                forall|q: int| 0 <= q < p ==> time_le(#[trigger] v@[q].time_code, e.time_code),
            decreases v@.len() - p,
        {
            p = p + 1;
        }
        let ghost before = v@;
        proof {
            assert forall|q: int| p <= q < before.len() implies !time_le(
                (#[trigger] before[q]).time_code,
                e.time_code,
            ) by {
                lemma_total_order(before[p as int].time_code, before[q].time_code, e.time_code);
            }
        }
        v.insert(p, e);
        assert(v@ =~= before.take(p as int) + seq![e] + before.skip(p as int));
        proof {
            assert forall|a: int, b: int| 0 <= a < b < v@.len() implies time_le(
                #[trigger] v@[a].time_code,
                #[trigger] v@[b].time_code,
            ) by {
                if b == p {
                } else if a == p {
                    lemma_total_order(e.time_code, before[b - 1].time_code, e.time_code);
                } else if a < p && b > p {
                    lemma_total_order(before[a].time_code, e.time_code, before[b - 1].time_code);
                } else if b < p {
                } else {
                    assert(before[a - 1] == v@[a]);
                }
            }
            assert forall|t: TimeCode| #[trigger] at_time(v@, t) == at_time(
                orig.take(i + 1),
                t,
            ) by {
                let pre = before.take(p as int);
                let post = before.skip(p as int);
                lemma_at_time_add(pre + seq![e], post, t);
                lemma_at_time_add(pre, post, t);
                assert(before =~= pre + post);
                assert(pre + seq![e] =~= pre.push(e));
                lemma_filter_push(pre, e, t);
                lemma_filter_push(orig.take(i as int), e, t);
                assert(orig.take(i + 1) =~= orig.take(i as int).push(e));
                assert(Seq::<OutlineEntry>::empty().push(e) =~= seq![e]);
                lemma_filter_push(Seq::<OutlineEntry>::empty(), e, t);
                lemma_filter_none(Seq::<OutlineEntry>::empty(), t);
                if e.time_code == t {
                    assert forall|q: int| 0 <= q < post.len() implies (#[trigger] post[q]).time_code
                        != t by {
                        assert(post[q] == before[p + q]);
                        assert(!time_le(before[p + q].time_code, e.time_code));
                    }
                    lemma_filter_none(post, t);
                    assert(at_time(pre, t).push(e) + at_time(post, t) =~= at_time(pre, t).push(e));
                    assert(at_time(pre, t) + at_time(post, t) =~= at_time(pre, t));
                } else {
                    assert(at_time(pre, t) + Seq::<OutlineEntry>::empty() =~= at_time(pre, t));
                }
            }
        }
        assert(rest@ =~= orig.skip(i + 1));
        i = i + 1;
    }
    assert(orig.take(i as int) =~= orig);
}

/// The text `cs[lo..hi]` as a `String`.
pub(crate) fn string_of_range(cs: &Vec<char>, lo: usize, hi: usize) -> (r: String)
    requires
        lo <= hi <= cs@.len(),
    ensures
        r@ == cs@.subrange(lo as int, hi as int),
{
    let mut r = String::new();
    push_range(&mut r, cs, lo, hi);
    r
}

/// Parses the outline line `cs[lo..hi]`.
fn parse_line(cs: &Vec<char>, lo: usize, hi: usize) -> (r: Result<OutlineEntry, ParseOutlineError>)
    requires
        lo <= hi <= cs@.len(),
    ensures
        line_ok(cs@.subrange(lo as int, hi as int)) ==> r is Ok && r->Ok_0@ == line_entry(
            cs@.subrange(lo as int, hi as int),
        ),
        !line_ok(cs@.subrange(lo as int, hi as int)) ==> r is Err && line_error(
            r->Err_0,
            cs@.subrange(lo as int, hi as int),
        ),
{
    let ghost l = cs@.subrange(lo as int, hi as int);
    let mut sp = lo;
    while sp < hi && cs[sp] != ' '
        invariant
            lo <= sp <= hi <= cs@.len(),
            l == cs@.subrange(lo as int, hi as int),
            forall|j: int| 0 <= j < sp - lo ==> l[j] != ' ',
        decreases hi - sp,
    {
        sp = sp + 1;
    }
    if sp == hi {
        assert(!has_space(l));
        return Err(ParseOutlineError::InvalidOutlineEntry(string_of_range(cs, lo, hi)));
    }
    let ghost k = sp - lo;
    assert(is_first_space(l, k));
    assert(first_space(l) == k) by {
        let f = first_space(l);
        assert(is_first_space(l, f));
        if f < k {
            assert(l[f] != ' ');
        } else if f > k {
            assert(l[k] != ' ');
        }
    }
    assert(token_of(l) =~= cs@.subrange(lo as int, sp as int));
    assert(label_of(l) =~= cs@.subrange(sp + 1, hi as int));
    let mut t = lo;
    while t < sp && (is_digit_char(cs[t]) || cs[t] == ':')
        invariant
            lo <= t <= sp < hi <= cs@.len(),
            forall|j: int| lo <= j < t ==> is_digit(#[trigger] cs@[j]) || cs@[j] == ':',
        decreases sp - t,
    {
        t = t + 1;
    }
    if t == lo || t < sp || sp + 1 == hi {
        assert(!well_formed_line(l)) by {
            if t < sp {
                assert(token_of(l)[t - lo] == cs@[t as int]);
            }
        }
        return Err(ParseOutlineError::InvalidOutlineEntry(string_of_range(cs, lo, hi)));
    }
    assert(well_formed_line(l)) by {
        assert forall|i: int| 0 <= i < token_of(l).len() implies is_digit(#[trigger] token_of(l)[i])
            || token_of(l)[i] == ':' by {
            assert(token_of(l)[i] == cs@[lo + i]);
        }
    }
    match parse_range(cs, lo, sp) {
        Some(time_code) => {
            let text = string_of_range(cs, sp + 1, hi);
            Ok(OutlineEntry { time_code, text })
        },
        None => Err(ParseOutlineError::InvalidTimeCode(string_of_range(cs, lo, sp))),
    }
}

/// Parses an outline document: one `<time code> <label>` entry per line, in
/// document order. The first refused line ends the parse with its error.
pub fn parse_outline(outline: &str) -> (r: Result<Vec<OutlineEntry>, ParseOutlineError>)
    ensures
        outline_ok(outline@) <==> r is Ok,
        r is Ok ==> entries_view(r->Ok_0@) == outline_entries(outline@),
        r is Err ==> outline_error(r->Err_0, outline@),
{
    let cs = chars_of(outline);
    let ranges = line_ranges(&cs);
    let ghost ls = lines_of(outline@);
    let mut entries: Vec<OutlineEntry> = Vec::new();
    let mut i: usize = 0;
    while i < ranges.len()
        invariant
            cs@ == outline@,
            ls == lines_of(outline@),
            ranges@.len() == ls.len(),
            forall|k: int|
                0 <= k < ranges@.len() ==> {
                    &&& (#[trigger] ranges@[k]).0 <= ranges@[k].1 <= cs@.len()
                    &&& cs@.subrange(ranges@[k].0 as int, ranges@[k].1 as int) == ls[k]
                },
            i <= ranges@.len(),
            entries@.len() == i,
            forall|j: int| 0 <= j < i ==> line_ok(#[trigger] ls[j]),
            forall|j: int| 0 <= j < i ==> (#[trigger] entries@[j])@ == line_entry(ls[j]),
        decreases ranges@.len() - i,
    {
        let (lo, hi) = ranges[i];
        match parse_line(&cs, lo, hi) {
            Ok(entry) => {
                entries.push(entry);
            },
            Err(e) => {
                assert(outline_error(e, outline@)) by {
                    assert(cs@.subrange(lo as int, hi as int) == ls[i as int]);
                }
                return Err(e);
            },
        }
        i = i + 1;
    }
    assert(entries_view(entries@) =~= outline_entries(outline@));
    Ok(entries)
}

} // verus!
