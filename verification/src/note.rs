//! The note model: a timestamped unit of free text, its derived title and
//! slug, and its markdown document form.

use vstd::prelude::*;
use vstd::string::StringExecFns;
use crate::text::{
    chars_of, string_of, contains_str, is_substring, find_from, find_char, copy_range, push_range,
    matches_at,
};

verus! {

/// The fields of a note, as character sequences; the ghost image of [`Note`].
pub ghost struct NoteView {
    pub datetime: Seq<char>,
    pub directory: Seq<char>,
    pub title: Seq<char>,
    pub note: Seq<char>,
}

/// The first line of `s`: everything before the first newline, or all of `s`
/// if it has none.
pub open spec fn first_line(s: Seq<char>) -> Seq<char> {
    s.subrange(0, find_from(s, '\n', 0))
}

/// `l` with a leading markdown heading marker stripped, if it has one.
pub open spec fn strip_heading(l: Seq<char>) -> Seq<char> {
    if l.len() >= 2 && l[0] == '#' && l[1] == ' ' {
        l.subrange(2, l.len() as int)
    } else {
        l
    }
}

/// The title derived from a body: its first line, with a leading `"# "`
/// stripped.
pub open spec fn title_of(body: Seq<char>) -> Seq<char> {
    strip_heading(first_line(body))
}

/// An ASCII whitespace character, as one can appear inside a title line.
pub open spec fn is_space(c: char) -> bool {
    c == ' ' || c == '\t' || c == '\r' || c == '\n'
}

/// Position of the first non-whitespace character of `s` at or after `i`, or
/// `s.len()` if there is none.
pub open spec fn next_word_start(s: Seq<char>, i: int) -> int
    decreases s.len() - i,
{
    if i < 0 || i >= s.len() {
        s.len() as int
    } else if is_space(s[i]) {
        next_word_start(s, i + 1)
    } else {
        i
    }
}

/// Position of the first whitespace character of `s` at or after `i`, or
/// `s.len()` if there is none.
pub open spec fn word_end(s: Seq<char>, i: int) -> int
    decreases s.len() - i,
{
    if i < 0 || i >= s.len() {
        s.len() as int
    } else if is_space(s[i]) {
        i
    } else {
        word_end(s, i + 1)
    }
}

/// Basic bounds for the word-boundary functions.
pub proof fn lemma_word_bounds(s: Seq<char>, i: int)
    requires
        0 <= i <= s.len(),
    ensures
        i <= next_word_start(s, i) <= s.len(),
        next_word_start(s, i) < s.len() ==> !is_space(s[next_word_start(s, i)]),
        i <= word_end(s, i) <= s.len(),
        word_end(s, i) < s.len() ==> is_space(s[word_end(s, i)]),
    decreases s.len() - i,
{
    if i < s.len() {
        lemma_word_bounds(s, i + 1);
    }
}

/// The slug of `s[i..]`: its whitespace-separated words joined by single
/// underscores, with leading and trailing whitespace dropped.
pub open spec fn slug_from(s: Seq<char>, i: int) -> Seq<char>
    decreases s.len() - i,
    via slug_from_decreases
{
    let start = next_word_start(s, i);
    if start >= s.len() {
        Seq::empty()
    } else {
        let end = word_end(s, start);
        let w = s.subrange(start, end);
        let rest = slug_from(s, end);
        if rest.len() == 0 {
            w
        } else {
            w + seq!['_'] + rest
        }
    }
}

#[via_fn]
proof fn slug_from_decreases(s: Seq<char>, i: int) {
    if 0 <= i <= s.len() {
        lemma_word_bounds(s, i);
        let start = next_word_start(s, i);
        if start < s.len() {
            lemma_word_bounds(s, start + 1);
            assert(word_end(s, start) == word_end(s, start + 1));
        }
    }
}

/// The slug of a title: its words joined by underscores.
pub open spec fn slug_of(title: Seq<char>) -> Seq<char> {
    slug_from(title, 0)
}

/// Position of the first non-whitespace character of `v` at or after `from`.
fn next_word_start_exec(v: &Vec<char>, from: usize) -> (r: usize)
    requires
        from <= v@.len(),
    ensures
        r == next_word_start(v@, from as int),
        from <= r <= v@.len(),
    decreases v@.len() - from,
{
    let len = v.len();
    let mut i: usize = from;
    while i < len
        invariant
            from <= i <= len,
            len == v@.len(),
            next_word_start(v@, from as int) == next_word_start(v@, i as int),
        decreases len - i,
    {
        let c = v[i];
        if !(c == ' ' || c == '\t' || c == '\r' || c == '\n') {
            return i;
        }
        i += 1;
    }
    i
}

/// Position of the first whitespace character of `v` at or after `from`.
fn word_end_exec(v: &Vec<char>, from: usize) -> (r: usize)
    requires
        from <= v@.len(),
    ensures
        r == word_end(v@, from as int),
        from <= r <= v@.len(),
    decreases v@.len() - from,
{
    let len = v.len();
    let mut i: usize = from;
    while i < len
        invariant
            from <= i <= len,
            len == v@.len(),
            word_end(v@, from as int) == word_end(v@, i as int),
        decreases len - i,
    {
        let c = v[i];
        if c == ' ' || c == '\t' || c == '\r' || c == '\n' {
            return i;
        }
        i += 1;
    }
    i
}

/// The slug of `v[i..]`, built word by word.
fn slug_tail(v: &Vec<char>, i: usize) -> (r: Vec<char>)
    requires
        i <= v@.len(),
    ensures
        r@ == slug_from(v@, i as int),
    decreases v@.len() - i,
{
    let start = next_word_start_exec(v, i);
    if start >= v.len() {
        let r: Vec<char> = Vec::new();
        proof {
            assert(r@ =~= slug_from(v@, i as int));
        }
        r
    } else {
        let end = word_end_exec(v, start);
        proof {
            lemma_word_bounds(v@, i as int);
            lemma_word_bounds(v@, start + 1);
            assert(word_end(v@, start as int) == word_end(v@, start + 1));
        }
        let mut w = copy_range(v, start, end);
        let rest = slug_tail(v, end);
        if rest.len() == 0 {
            w
        } else {
            w.push('_');
            let n = rest.len();
            push_range(&mut w, &rest, 0, n);
            proof {
                assert(w@ =~= slug_from(v@, i as int));
            }
            w
        }
    }
}

/// The markdown document form of a note: a front-matter block holding the
/// title and creation time, followed by the body.
pub open spec fn markdown_of(n: NoteView) -> Seq<char> {
    "---\ntitle: "@ + n.title + "\ndate: "@ + n.datetime + "\n\n---\n\n"@ + n.note
}

/// The display form of a note: its markdown document followed by a
/// creation-time line.
pub open spec fn rendered_of(n: NoteView) -> Seq<char> {
    markdown_of(n) + "\n\nCreated at: "@ + n.datetime
}

/// Does the note's body contain `kw` as a substring?
pub open spec fn note_contains(n: NoteView, kw: Seq<char>) -> bool {
    is_substring(kw, n.note)
}

/// The summary index content after appending a link line for `n`.
pub open spec fn updated_summary(n: NoteView, existing: Seq<char>) -> Seq<char> {
    existing + "\n- ["@ + n.title + "]("@ + slug_of(n.title) + ".md)"@
}

/// Relies on `chrono::Local::now` and the `Display` of `chrono::DateTime`:
/// the current local time rendered as date, time of day and offset on a
/// single line — never empty, never containing a newline.
#[verifier::external_body]
fn local_now_string() -> (r: String)
    ensures
        r@.len() > 0,
        forall|i: int| 0 <= i < r@.len() ==> r@[i] != '\n',
{
    chrono::Local::now().to_string()
}

/// Derive a title from a body: first line, leading `"# "` stripped.
pub(crate) fn derive_title(note: &str) -> (r: String)
    ensures
        r@ == title_of(note@),
{
    let v = chars_of(note);
    let end = find_char(&v, '\n', 0);
    let line = copy_range(&v, 0, end);
    if line.len() >= 2 {
        let c0 = line[0];
        let c1 = line[1];
        if c0 == '#' && c1 == ' ' {
            let stripped = copy_range(&line, 2, line.len());
            proof {
                assert(stripped@ =~= title_of(note@));
            }
            return string_of(&stripped);
        }
    }
    string_of(&line)
}

/// A single timestamped note: creation time, target directory, derived title,
/// and body.
pub struct Note {
    pub datetime: String,
    pub directory: String,
    pub title: String,
    pub note: String,
}

impl View for Note {
    type V = NoteView;

    open spec fn view(&self) -> NoteView {
        NoteView {
            datetime: self.datetime@,
            directory: self.directory@,
            title: self.title@,
            note: self.note@,
        }
    }
}

impl Note {
    /// A well-formed note: the timestamp is non-empty and single-line, and
    /// the title is the one derived from the body.
    pub open spec fn wf(self) -> bool {
        &&& self@.datetime.len() > 0
        &&& forall|i: int| 0 <= i < self@.datetime.len() ==> self@.datetime[i] != '\n'
        &&& self@.title == title_of(self@.note)
    }

    /// Make a new note for `directory` out of the text `note`, stamped with
    /// the current local time. The body must be non-empty; an empty editor
    /// result is to be treated as "no note" by the caller, never passed here.
    pub fn create(directory: String, note: String) -> (r: Note)
        requires
            note@.len() > 0,
        ensures
            r@.note == note@,
            r@.directory == directory@,
            r@.title == title_of(note@),
            r.wf(),
    {
        let datetime = local_now_string();
        let title = derive_title(note.as_str());
        Note { datetime, directory, title, note }
    }

    /// Case-sensitive substring search against the body.
    pub fn contains(&self, keyword: &str) -> (r: bool)
        ensures
            r == note_contains(self@, keyword@),
    {
        contains_str(self.note.as_str(), keyword)
    }

    /// The markdown document form of this note.
    pub fn make_markdown(&self) -> (r: String)
        ensures
            r@ == markdown_of(self@),
    {
        let mut s = String::new();
        s.append("---\ntitle: ");
        s.append(self.title.as_str());
        s.append("\ndate: ");
        s.append(self.datetime.as_str());
        s.append("\n\n---\n\n");
        s.append(self.note.as_str());
        proof {
            assert(s@ =~= markdown_of(self@));
        }
        s
    }

    /// The display form of this note.
    pub fn render(&self) -> (r: String)
        ensures
            r@ == rendered_of(self@),
    {
        let mut s = self.make_markdown();
        s.append("\n\nCreated at: ");
        s.append(self.datetime.as_str());
        proof {
            assert(s@ =~= rendered_of(self@));
        }
        s
    }

    /// The slug of this note's title.
    pub fn slug(&self) -> (r: String)
        ensures
            r@ == slug_of(self@.title),
    {
        let v = chars_of(self.title.as_str());
        let s = slug_tail(&v, 0);
        string_of(&s)
    }

    /// The file name this note is saved under: `<slug>.md`.
    pub fn file_name(&self) -> (r: String)
        ensures
            r@ == slug_of(self@.title) + ".md"@,
    {
        let mut s = self.slug();
        s.append(".md");
        s
    }

    /// The new content of the summary index after linking this note, given
    /// the index's current content; `None` when there is no index, in which
    /// case the update is skipped.
    pub fn update_summary(&self, summary: Option<String>) -> (r: Option<String>)
        ensures
            match summary {
                Some(existing) => r matches Some(c) && c@ == updated_summary(self@, existing@),
                None => r is None,
            },
    {
        match summary {
            None => None,
            Some(existing) => {
                let ghost e0 = existing@;
                let mut s = existing;
                s.append("\n- [");
                s.append(self.title.as_str());
                s.append("](");
                let slug = self.slug();
                s.append(slug.as_str());
                s.append(".md)");
                proof {
                    assert(s@ =~= updated_summary(self@, e0));
                }
                Some(s)
            },
        }
    }

    /// The note's body.
    pub fn body(&self) -> (r: &String)
        ensures
            r@ == self@.note,
    {
        &self.note
    }

    /// The note's derived title.
    pub fn title(&self) -> (r: &String)
        ensures
            r@ == self@.title,
    {
        &self.title
    }

    /// The note's creation timestamp.
    pub fn datetime(&self) -> (r: &String)
        ensures
            r@ == self@.datetime,
    {
        &self.datetime
    }

    /// The directory the note belongs to.
    pub fn directory(&self) -> (r: &String)
        ensures
            r@ == self@.directory,
    {
        &self.directory
    }
}

/// A markdown document taken apart again: the title, the date line, and the
/// body after the front-matter block — or `None` when the text is not in
/// the form [`markdown_of`] produces.
pub open spec fn parsed_markdown(s: Seq<char>) -> Option<(Seq<char>, Seq<char>, Seq<char>)> {
    if s.len() < 11 || s.subrange(0, 11) != "---\ntitle: "@ {
        None
    } else {
        let t_end = find_from(s, '\n', 11);
        if t_end >= s.len() {
            None
        } else if t_end + 7 > s.len() || s.subrange(t_end, t_end + 7) != "\ndate: "@ {
            None
        } else {
            let d_end = find_from(s, '\n', t_end + 7);
            if d_end + 7 > s.len() || s.subrange(d_end, d_end + 7) != "\n\n---\n\n"@ {
                None
            } else {
                Some((s.subrange(11, t_end), s.subrange(t_end + 7, d_end), s.skip(d_end + 7)))
            }
        }
    }
}

/// Take a markdown document apart into its title, date line and body.
pub fn parse_markdown(s: &str) -> (r: Option<(String, String, String)>)
    ensures
        match r {
            Some(p) => parsed_markdown(s@) == Some((p.0@, p.1@, p.2@)),
            None => parsed_markdown(s@) is None,
        },
{
    let v = chars_of(s);
    let head = chars_of("---\ntitle: ");
    proof {
        reveal_strlit("---\ntitle: ");
    }
    if v.len() < 11 {
        return None;
    }
    if !matches_at(&v, &head, 0) {
        return None;
    }
    let t_end = find_char(&v, '\n', 11);
    if t_end >= v.len() {
        return None;
    }
    let datemark = chars_of("\ndate: ");
    proof {
        reveal_strlit("\ndate: ");
    }
    if v.len() - t_end < 7 {
        return None;
    }
    if !matches_at(&v, &datemark, t_end) {
        return None;
    }
    let d_end = find_char(&v, '\n', t_end + 7);
    let sepmark = chars_of("\n\n---\n\n");
    proof {
        reveal_strlit("\n\n---\n\n");
    }
    if v.len() - d_end < 7 {
        return None;
    }
    if !matches_at(&v, &sepmark, d_end) {
        return None;
    }
    let title = copy_range(&v, 11, t_end);
    let date = copy_range(&v, t_end + 7, d_end);
    let vlen = v.len();
    let body = copy_range(&v, d_end + 7, vlen);
    proof {
        assert(body@ =~= v@.skip(d_end + 7));
    }
    Some((string_of(&title), string_of(&date), string_of(&body)))
}

/// The derived title never contains a newline: it comes from the first line.
pub proof fn lemma_title_no_newline(body: Seq<char>)
    ensures
        forall|j: int| 0 <= j < title_of(body).len() ==> title_of(body)[j] != '\n',
{
    crate::text::lemma_find_from_bounds(body, '\n', 0);
}

/// Law: a note's markdown document parses back into exactly its title,
/// timestamp and body — writing a note to its file and reading the file
/// back recovers the body (and the rest) unchanged.
pub proof fn lemma_markdown_round_trip(n: NoteView)
    requires
        forall|j: int| 0 <= j < n.datetime.len() ==> n.datetime[j] != '\n',
        forall|j: int| 0 <= j < n.title.len() ==> n.title[j] != '\n',
    ensures
        parsed_markdown(markdown_of(n)) == Some((n.title, n.datetime, n.note)),
{
    let s = markdown_of(n);
    reveal_strlit("---\ntitle: ");
    reveal_strlit("\ndate: ");
    reveal_strlit("\n\n---\n\n");
    let h = "---\ntitle: "@;
    let dm = "\ndate: "@;
    let sp = "\n\n---\n\n"@;
    assert(h.len() == 11);
    assert(dm.len() == 7);
    assert(sp.len() == 7);
    let t_end = 11 + n.title.len() as int;
    let d_end = t_end + 7 + n.datetime.len() as int;
    assert(s.subrange(0, 11) =~= h);
    assert(forall|j: int| 11 <= j < t_end ==> s[j] == n.title[j - 11]);
    assert(s[t_end] == dm[0]);
    assert(dm[0] == '\n');
    crate::text::lemma_find_from_is(s, '\n', 11, t_end);
    assert(s.subrange(11, t_end) =~= n.title);
    assert(s.subrange(t_end, t_end + 7) =~= dm);
    assert(forall|j: int| t_end + 7 <= j < d_end ==> s[j] == n.datetime[j - (t_end + 7)]);
    assert(s[d_end] == sp[0]);
    assert(sp[0] == '\n');
    crate::text::lemma_find_from_is(s, '\n', t_end + 7, d_end);
    assert(s.subrange(t_end + 7, d_end) =~= n.datetime);
    assert(s.subrange(d_end, d_end + 7) =~= sp);
    assert(s.skip(d_end + 7) =~= n.note);
}

/// Law: for a well-formed note, saving its markdown document and reading it
/// back recovers title, timestamp and body unchanged.
pub proof fn lemma_note_markdown_round_trip(n: Note)
    requires
        n.wf(),
    ensures
        parsed_markdown(markdown_of(n@)) == Some((n@.title, n@.datetime, n@.note)),
{
    lemma_title_no_newline(n@.note);
    lemma_markdown_round_trip(n@);
}

/// Law: a note whose body is `body` contains keyword `kw` exactly when `kw`
/// is a substring of `body` — creation changes nothing about the match.
pub proof fn lemma_create_contains(created: NoteView, body: Seq<char>, kw: Seq<char>)
    requires
        created.note == body,
    ensures
        note_contains(created, kw) <==> is_substring(kw, body),
{
}

} // verus!
