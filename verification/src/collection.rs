//! Operations over a loaded collection: listing the most recent notes and
//! searching by keyword, plus the joined rendering of a result set.

use vstd::prelude::*;
use vstd::string::StringExecFns;
use crate::note::{Note, NoteView, note_contains};
use crate::text::{contains_str, is_substring};

verus! {

/// The last `min(n, k)` elements of `items`, newest (that is, last) first.
pub open spec fn last_rev(items: Seq<Seq<char>>, n: int) -> Seq<Seq<char>> {
    let k = items.len() as int;
    let m = if n < 0 {
        0
    } else if n <= k {
        n
    } else {
        k
    };
    Seq::new(m as nat, |i: int| items[k - 1 - i])
}

/// The separator line printed between listed notes.
pub open spec fn separator() -> Seq<char> {
    "\n===================================\n\n"@
}

/// The elements of `items` joined with the separator line between them.
pub open spec fn joined(items: Seq<Seq<char>>) -> Seq<char>
    decreases items.len(),
{
    if items.len() == 0 {
        Seq::empty()
    } else if items.len() == 1 {
        items[0]
    } else {
        items[0] + separator() + joined(items.drop_first())
    }
}

/// Joining one more element appends a separator and the element.
pub proof fn lemma_joined_push(items: Seq<Seq<char>>, x: Seq<char>)
    ensures
        joined(items.push(x)) == if items.len() == 0 {
            x
        } else {
            joined(items) + separator() + x
        },
    decreases items.len(),
{
    if items.len() == 0 {
        assert(items.push(x) =~~= seq![x]);
    } else {
        lemma_joined_push(items.drop_first(), x);
        assert(items.push(x).drop_first() =~~= items.drop_first().push(x));
        assert(items.push(x)[0] == items[0]);
        if items.len() == 1 {
            assert(joined(items.push(x)) == items[0] + separator() + x);
        } else {
            assert(joined(items) + separator() + x =~= items[0] + separator() + (joined(
                items.drop_first(),
            ) + separator() + x));
        }
    }
}

/// The most recent `num` entries of `note_list`: its last `min(num, len)`
/// elements, most recent first.
pub fn list(note_list: &Vec<String>, num: usize) -> (r: Vec<String>)
    ensures
        r@.map_values(|s: String| s@) == last_rev(
            note_list@.map_values(|s: String| s@),
            num as int,
        ),
{
    let k = note_list.len();
    let m = if num <= k {
        num
    } else {
        k
    };
    let mut r: Vec<String> = Vec::new();
    let mut i: usize = 0;
    while i < m
        invariant
            i <= m <= k,
            k == note_list@.len(),
            r@.len() == i,
            forall|t: int| 0 <= t < i ==> #[trigger] r@[t]@ == note_list@[k - 1 - t]@,
        decreases m - i,
    {
        let s = note_list[k - 1 - i].clone();
        r.push(s);
        i += 1;
    }
    proof {
        assert(r@.map_values(|s: String| s@) =~= last_rev(
            note_list@.map_values(|s: String| s@),
            num as int,
        ));
    }
    r
}

/// Join already-rendered notes with the separator line.
pub fn join_rendered(items: &Vec<String>) -> (r: String)
    ensures
        r@ == joined(items@.map_values(|s: String| s@)),
{
    let ghost vs = items@.map_values(|s: String| s@);
    let mut out = String::new();
    let mut i: usize = 0;
    while i < items.len()
        invariant
            i <= items@.len(),
            vs == items@.map_values(|s: String| s@),
            out@ == joined(vs.take(i as int)),
        decreases items@.len() - i,
    {
        if i > 0 {
            out.append("\n===================================\n\n");
        }
        out.append(items[i].as_str());
        proof {
            assert(vs.take(i + 1) =~~= vs.take(i as int).push(vs[i as int]));
            lemma_joined_push(vs.take(i as int), vs[i as int]);
            assert(out@ =~= joined(vs.take(i + 1)));
        }
        i += 1;
    }
    proof {
        assert(vs.take(vs.len() as int) =~~= vs);
    }
    out
}

/// The listing shown for `list`: the `num` most recent entries, most recent
/// first, joined by the separator line.
pub fn list_notes(note_list: &Vec<String>, num: usize) -> (r: String)
    ensures
        r@ == joined(last_rev(note_list@.map_values(|s: String| s@), num as int)),
{
    let sel = list(note_list, num);
    join_rendered(&sel)
}

/// The notes of `s` whose body contains `kw`, kept in order.
pub open spec fn search_matches(s: Seq<NoteView>, kw: Seq<char>) -> Seq<NoteView> {
    s.filter(|v: NoteView| note_contains(v, kw))
}

/// The entries of `s` that contain `kw` as a substring, kept in order.
pub open spec fn search_matches_texts(s: Seq<Seq<char>>, kw: Seq<char>) -> Seq<Seq<char>> {
    s.filter(|t: Seq<char>| is_substring(kw, t))
}

/// Search a collection of notes: exactly those whose body contains `text`,
/// in their original order.
pub fn search(notes: Vec<Note>, text: &str) -> (r: Vec<Note>)
    ensures
        r@.map_values(|n: Note| n@) == search_matches(notes@.map_values(|n: Note| n@), text@),
    decreases notes@.len(),
{
    let ghost vs = notes@.map_values(|n: Note| n@);
    let mut rest = notes;
    match rest.pop() {
        None => {
            let r: Vec<Note> = Vec::new();
            proof {
                reveal(Seq::filter);
                assert(r@.map_values(|n: Note| n@) =~= search_matches(vs, text@));
            }
            r
        },
        Some(last) => {
            let mut r = search(rest, text);
            let ghost pre = r@;
            let keep = last.contains(text);
            if keep {
                r.push(last);
            }
            proof {
                reveal(Seq::filter);
                assert(rest@.map_values(|n: Note| n@) =~~= vs.drop_last());
                assert(vs.drop_last().push(vs.last()) =~~= vs);
                assert(vs.last() == last@);
                if keep {
                    assert(r@.map_values(|n: Note| n@) =~= pre.map_values(|n: Note| n@).push(
                        last@,
                    ));
                }
                assert(r@.map_values(|n: Note| n@) =~= search_matches(vs, text@));
            }
            r
        },
    }
}

/// Search raw note texts, as the listing over a notes directory does:
/// exactly those entries that contain `text`, in their original order.
pub fn search_texts(texts: Vec<String>, text: &str) -> (r: Vec<String>)
    ensures
        r@.map_values(|s: String| s@) == search_matches_texts(
            texts@.map_values(|s: String| s@),
            text@,
        ),
    decreases texts@.len(),
{
    let ghost vs = texts@.map_values(|s: String| s@);
    let mut rest = texts;
    match rest.pop() {
        None => {
            let r: Vec<String> = Vec::new();
            proof {
                reveal(Seq::filter);
                assert(r@.map_values(|s: String| s@) =~= search_matches_texts(vs, text@));
            }
            r
        },
        Some(last) => {
            let mut r = search_texts(rest, text);
            let ghost pre = r@;
            let keep = contains_str(last.as_str(), text);
            if keep {
                r.push(last);
            }
            proof {
                reveal(Seq::filter);
                assert(rest@.map_values(|s: String| s@) =~~= vs.drop_last());
                assert(vs.drop_last().push(vs.last()) =~~= vs);
                if keep {
                    assert(r@.map_values(|s: String| s@) =~= pre.map_values(|s: String| s@).push(
                        vs.last(),
                    ));
                }
                assert(r@.map_values(|s: String| s@) =~= search_matches_texts(vs, text@));
            }
            r
        },
    }
}

/// Law: every search result contains the keyword — a note whose body lacks
/// it is never returned.
pub proof fn lemma_search_sound(s: Seq<NoteView>, kw: Seq<char>)
    ensures
        forall|i: int|
            0 <= i < search_matches(s, kw).len() ==> note_contains(
                #[trigger] search_matches(s, kw)[i],
                kw,
            ),
{
    assert forall|i: int| 0 <= i < search_matches(s, kw).len() implies note_contains(
        search_matches(s, kw)[i],
        kw,
    ) by {
        Seq::lemma_filter_pred(s, |v: NoteView| note_contains(v, kw), i);
    }
}

/// Law: listing keeps exactly the last `min(n, k)` entries, most recent
/// first — element `i` of the listing is element `k - 1 - i` of the
/// collection.
pub proof fn lemma_list_order(items: Seq<Seq<char>>, n: int)
    requires
        0 <= n,
    ensures
        last_rev(items, n).len() == if n <= items.len() {
            n
        } else {
            items.len() as int
        },
        forall|i: int|
            0 <= i < last_rev(items, n).len() ==> #[trigger] last_rev(items, n)[i] == items[
                items.len() - 1 - i
            ],
{
}

} // verus!
