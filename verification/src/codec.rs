//! The aggregate-file codec: a whole collection of notes serialized into one
//! text file, one record per note — the timestamp line followed by the
//! escaped body line — and parsed back, with a parse failure on any content
//! that is not a valid encoding.

use vstd::prelude::*;
use crate::note::{Note, derive_title};
use crate::text::{
    chars_of, string_of, find_from, find_char, copy_range, push_range, lemma_find_from_bounds,
    lemma_find_from_is,
};

verus! {

/// The stored text does not encode a collection of notes.
#[derive(Clone, Copy, PartialEq, Eq, Debug)]
pub struct ParseError;

/// A body with every backslash and newline escaped, so that it fits on one
/// line of a record.
pub open spec fn escape(s: Seq<char>) -> Seq<char>
    decreases s.len(),
{
    if s.len() == 0 {
        Seq::empty()
    } else {
        let head = if s[0] == '\\' {
            seq!['\\', '\\']
        } else if s[0] == '\n' {
            seq!['\\', 'n']
        } else {
            seq![s[0]]
        };
        head + escape(s.drop_first())
    }
}

/// The inverse of [`escape`]: `None` on a dangling backslash or an unknown
/// escape.
pub open spec fn unescape(s: Seq<char>) -> Option<Seq<char>>
    decreases s.len(),
{
    if s.len() == 0 {
        Some(Seq::empty())
    } else if s[0] == '\\' {
        if s.len() < 2 {
            None
        } else if s[1] == '\\' {
            match unescape(s.skip(2)) {
                Some(r) => Some(seq!['\\'] + r),
                None => None,
            }
        } else if s[1] == 'n' {
            match unescape(s.skip(2)) {
                Some(r) => Some(seq!['\n'] + r),
                None => None,
            }
        } else {
            None
        }
    } else {
        match unescape(s.drop_first()) {
            Some(r) => Some(seq![s[0]] + r),
            None => None,
        }
    }
}

/// Escaping never leaves a newline in the text.
pub proof fn lemma_escape_no_newline(s: Seq<char>)
    ensures
        forall|j: int| 0 <= j < escape(s).len() ==> escape(s)[j] != '\n',
    decreases s.len(),
{
    if s.len() > 0 {
        lemma_escape_no_newline(s.drop_first());
        assert forall|j: int| 0 <= j < escape(s).len() implies escape(s)[j] != '\n' by {
            let head_len: int = if s[0] == '\\' || s[0] == '\n' {
                2
            } else {
                1
            };
            if j >= head_len {
                assert(escape(s)[j] == escape(s.drop_first())[j - head_len]);
            }
        }
    }
}

/// Escaping a single character.
pub proof fn lemma_escape_one(c: char)
    ensures
        escape(seq![c]) == if c == '\\' {
            seq!['\\', '\\']
        } else if c == '\n' {
            seq!['\\', 'n']
        } else {
            seq![c]
        },
{
    assert(seq![c].drop_first() =~= Seq::<char>::empty());
    assert(escape(seq![c].drop_first()) == Seq::<char>::empty());
    if c == '\\' {
        assert(escape(seq![c]) =~= seq!['\\', '\\']);
    } else if c == '\n' {
        assert(escape(seq![c]) =~= seq!['\\', 'n']);
    } else {
        assert(escape(seq![c]) =~= seq![c]);
    }
}

/// Escaping distributes over concatenation.
pub proof fn lemma_escape_add(a: Seq<char>, b: Seq<char>)
    ensures
        escape(a + b) == escape(a) + escape(b),
    decreases a.len(),
{
    if a.len() == 0 {
        assert(a + b =~= b);
        assert(escape(a) + escape(b) =~= escape(b));
    } else {
        lemma_escape_add(a.drop_first(), b);
        assert((a + b).drop_first() =~= a.drop_first() + b);
        assert(escape(a + b) =~= escape(a) + escape(b));
    }
}

/// Law: unescaping undoes escaping, for every body.
pub proof fn lemma_unescape_escape(s: Seq<char>)
    ensures
        unescape(escape(s)) == Some(s),
    decreases s.len(),
{
    if s.len() == 0 {
    } else {
        lemma_unescape_escape(s.drop_first());
        let e = escape(s);
        if s[0] == '\\' {
            assert(e.skip(2) =~= escape(s.drop_first()));
            assert(seq!['\\'] + s.drop_first() =~= s);
        } else if s[0] == '\n' {
            assert(e.skip(2) =~= escape(s.drop_first()));
            assert(seq!['\n'] + s.drop_first() =~= s);
        } else {
            assert(e.drop_first() =~= escape(s.drop_first()));
            assert(seq![s[0]] + s.drop_first() =~= s);
        }
    }
}

/// Encoding a single record.
pub proof fn lemma_encoded_one(p: (Seq<char>, Seq<char>))
    ensures
        encoded(seq![p]) == record_of(p.0, p.1),
{
    assert(seq![p].drop_first() =~= Seq::<(Seq<char>, Seq<char>)>::empty());
    assert(encoded(seq![p].drop_first()) == Seq::<char>::empty());
    assert(encoded(seq![p]) =~= record_of(p.0, p.1));
}

/// One persisted record: the timestamp line, then the escaped body line.
pub open spec fn record_of(dt: Seq<char>, body: Seq<char>) -> Seq<char> {
    dt + seq!['\n'] + escape(body) + seq!['\n']
}

/// A whole collection, encoded record after record.
pub open spec fn encoded(ps: Seq<(Seq<char>, Seq<char>)>) -> Seq<char>
    decreases ps.len(),
{
    if ps.len() == 0 {
        Seq::empty()
    } else {
        record_of(ps[0].0, ps[0].1) + encoded(ps.drop_first())
    }
}

/// Encoding distributes over concatenation of collections.
pub proof fn lemma_encoded_add(a: Seq<(Seq<char>, Seq<char>)>, b: Seq<(Seq<char>, Seq<char>)>)
    ensures
        encoded(a + b) == encoded(a) + encoded(b),
    decreases a.len(),
{
    if a.len() == 0 {
        assert(a + b =~= b);
        assert(encoded(a) + encoded(b) =~= encoded(b));
    } else {
        lemma_encoded_add(a.drop_first(), b);
        assert((a + b).drop_first() =~= a.drop_first() + b);
        assert(encoded(a + b) =~= encoded(a) + encoded(b));
    }
}

/// The collection read back from stored text: `None` when the text is not a
/// valid encoding — a record truncated before its newline, an empty
/// timestamp line, or a body line that does not unescape.
pub open spec fn decoded(s: Seq<char>) -> Option<Seq<(Seq<char>, Seq<char>)>>
    decreases s.len(),
    via decoded_decreases
{
    if s.len() == 0 {
        Some(Seq::empty())
    } else {
        let e1 = find_from(s, '\n', 0);
        if e1 == 0 || e1 >= s.len() {
            None
        } else {
            let dt = s.subrange(0, e1);
            let rest1 = s.skip(e1 + 1);
            let e2 = find_from(rest1, '\n', 0);
            if e2 >= rest1.len() {
                None
            } else {
                match unescape(rest1.subrange(0, e2)) {
                    Some(b) => match decoded(rest1.skip(e2 + 1)) {
                        Some(tail) => Some(seq![(dt, b)] + tail),
                        None => None,
                    },
                    None => None,
                }
            }
        }
    }
}

#[via_fn]
proof fn decoded_decreases(s: Seq<char>) {
    if s.len() > 0 {
        lemma_find_from_bounds(s, '\n', 0);
        let e1 = find_from(s, '\n', 0);
        if 0 < e1 < s.len() {
            lemma_find_from_bounds(s.skip(e1 + 1), '\n', 0);
        }
    }
}

/// A record's fields as a note holds them: a non-empty, single-line
/// timestamp, and any body.
pub open spec fn valid_pair(p: (Seq<char>, Seq<char>)) -> bool {
    p.0.len() > 0 && forall|j: int| 0 <= j < p.0.len() ==> p.0[j] != '\n'
}

/// Every record of the collection is valid.
pub open spec fn valid_pairs(ps: Seq<(Seq<char>, Seq<char>)>) -> bool {
    forall|k: int| 0 <= k < ps.len() ==> valid_pair(#[trigger] ps[k])
}

/// Whatever decodes is made of valid records.
pub proof fn lemma_decoded_valid(s: Seq<char>)
    requires
        decoded(s) is Some,
    ensures
        valid_pairs(decoded(s).unwrap()),
    decreases s.len(),
{
    if s.len() > 0 {
        lemma_find_from_bounds(s, '\n', 0);
        let e1 = find_from(s, '\n', 0);
        let rest1 = s.skip(e1 + 1);
        lemma_find_from_bounds(rest1, '\n', 0);
        let e2 = find_from(rest1, '\n', 0);
        lemma_decoded_valid(rest1.skip(e2 + 1));
        let dt = s.subrange(0, e1);
        assert(valid_pair((dt, unescape(rest1.subrange(0, e2)).unwrap())));
        assert forall|k: int| 0 <= k < decoded(s).unwrap().len() implies valid_pair(
            #[trigger] decoded(s).unwrap()[k],
        ) by {
            if k > 0 {
                assert(decoded(s).unwrap()[k] == decoded(rest1.skip(e2 + 1)).unwrap()[k - 1]);
            }
        }
    }
}

/// Law: decoding undoes encoding — a saved collection loads back exactly,
/// record for record and in order.
pub proof fn lemma_decode_encode(ps: Seq<(Seq<char>, Seq<char>)>)
    requires
        valid_pairs(ps),
    ensures
        decoded(encoded(ps)) == Some(ps),
    decreases ps.len(),
{
    if ps.len() == 0 {
    } else {
        let dt = ps[0].0;
        let b = ps[0].1;
        let s = encoded(ps);
        assert(valid_pair(ps[0]));
        assert(valid_pairs(ps.drop_first())) by {
            assert(forall|k: int|
                0 <= k < ps.drop_first().len() ==> #[trigger] ps.drop_first()[k] == ps[k + 1]);
        }
        lemma_decode_encode(ps.drop_first());
        lemma_escape_no_newline(b);
        lemma_unescape_escape(b);
        assert(s =~= dt + seq!['\n'] + escape(b) + seq!['\n'] + encoded(ps.drop_first()));
        assert(forall|j: int| 0 <= j < dt.len() ==> s[j] == dt[j]);
        assert(s[dt.len() as int] == '\n');
        lemma_find_from_is(s, '\n', 0, dt.len() as int);
        let e1 = find_from(s, '\n', 0);
        assert(e1 == dt.len());
        assert(s.subrange(0, e1) =~= dt);
        let rest1 = s.skip(e1 + 1);
        assert(rest1 =~= escape(b) + seq!['\n'] + encoded(ps.drop_first()));
        assert(forall|j: int| 0 <= j < escape(b).len() ==> rest1[j] == escape(b)[j]);
        assert(rest1[escape(b).len() as int] == '\n');
        lemma_find_from_is(rest1, '\n', 0, escape(b).len() as int);
        let e2 = find_from(rest1, '\n', 0);
        assert(rest1.subrange(0, e2) =~= escape(b));
        assert(rest1.skip(e2 + 1) =~= encoded(ps.drop_first()));
        assert(seq![(dt, b)] + ps.drop_first() =~= ps);
    }
}

/// The timestamp and body of each note, in order: what the aggregate file
/// records.
pub open spec fn pairs_of(s: Seq<Note>) -> Seq<(Seq<char>, Seq<char>)> {
    s.map_values(|n: Note| (n@.datetime, n@.note))
}

/// Law: saving a collection of well-formed notes and loading it back yields
/// the same timestamps and bodies, in the same order.
pub proof fn lemma_save_load_round_trip(notes: Seq<Note>)
    requires
        forall|i: int| 0 <= i < notes.len() ==> (#[trigger] notes[i]).wf(),
    ensures
        decoded(encoded(pairs_of(notes))) == Some(pairs_of(notes)),
{
    assert forall|k: int| 0 <= k < pairs_of(notes).len() implies valid_pair(
        #[trigger] pairs_of(notes)[k],
    ) by {
        assert(notes[k].wf());
    }
    lemma_decode_encode(pairs_of(notes));
}

/// Escape the characters of a body so it fits on one record line.
fn escape_chars(v: &Vec<char>) -> (r: Vec<char>)
    ensures
        r@ == escape(v@),
{
    let mut out: Vec<char> = Vec::new();
    let mut i: usize = 0;
    while i < v.len()
        invariant
            i <= v@.len(),
            out@ == escape(v@.take(i as int)),
        decreases v@.len() - i,
    {
        let c = v[i];
        if c == '\\' {
            out.push('\\');
            out.push('\\');
        } else if c == '\n' {
            out.push('\\');
            out.push('n');
        } else {
            out.push(c);
        }
        proof {
            assert(v@.take(i + 1) =~= v@.take(i as int) + seq![v@[i as int]]);
            lemma_escape_add(v@.take(i as int), seq![v@[i as int]]);
            lemma_escape_one(v@[i as int]);
            assert(out@ =~= escape(v@.take(i + 1)));
        }
        i += 1;
    }
    proof {
        assert(v@.take(v@.len() as int) =~= v@);
    }
    out
}

/// Unescape `v[i..]`, or `None` when it is not valid escaped text.
fn unescape_rec(v: &Vec<char>, i: usize) -> (r: Option<Vec<char>>)
    requires
        i <= v@.len(),
    ensures
        match r {
            Some(out) => unescape(v@.skip(i as int)) == Some(out@),
            None => unescape(v@.skip(i as int)) is None,
        },
    decreases v@.len() - i,
{
    if i == v.len() {
        let out: Vec<char> = Vec::new();
        proof {
            assert(v@.skip(i as int) =~= Seq::<char>::empty());
            assert(unescape(v@.skip(i as int)) == Some(out@));
        }
        Some(out)
    } else {
        let ghost s = v@.skip(i as int);
        proof {
            assert(s.len() == v@.len() - i);
            assert(s[0] == v@[i as int]);
        }
        let c = v[i];
        if c == '\\' {
            if i + 1 == v.len() {
                None
            } else {
                let c2 = v[i + 1];
                proof {
                    assert(s[1] == v@[i + 1]);
                }
                if c2 == '\\' || c2 == 'n' {
                    match unescape_rec(v, i + 2) {
                        None => {
                            proof {
                                assert(s.skip(2) =~= v@.skip(i + 2));
                            }
                            None
                        },
                        Some(rest) => {
                            let mut out: Vec<char> = Vec::new();
                            if c2 == '\\' {
                                out.push('\\');
                            } else {
                                out.push('\n');
                            }
                            let n = rest.len();
                            push_range(&mut out, &rest, 0, n);
                            proof {
                                assert(s.skip(2) =~= v@.skip(i + 2));
                                assert(rest@.subrange(0, n as int) =~= rest@);
                                if c2 == '\\' {
                                    assert(out@ =~= seq!['\\'] + rest@);
                                } else {
                                    assert(out@ =~= seq!['\n'] + rest@);
                                }
                            }
                            Some(out)
                        },
                    }
                } else {
                    None
                }
            }
        } else {
            match unescape_rec(v, i + 1) {
                None => {
                    proof {
                        assert(s.drop_first() =~= v@.skip(i + 1));
                    }
                    None
                },
                Some(rest) => {
                    let mut out: Vec<char> = Vec::new();
                    out.push(c);
                    let n = rest.len();
                    push_range(&mut out, &rest, 0, n);
                    proof {
                        assert(s.drop_first() =~= v@.skip(i + 1));
                        assert(rest@.subrange(0, n as int) =~= rest@);
                        assert(out@ =~= seq![s[0]] + rest@);
                    }
                    Some(out)
                },
            }
        }
    }
}

/// Serialize the whole collection into the aggregate file's text.
pub fn encode(notes: &Vec<Note>) -> (r: String)
    ensures
        r@ == encoded(pairs_of(notes@)),
{
    let ghost ps = pairs_of(notes@);
    let mut out: Vec<char> = Vec::new();
    let mut i: usize = 0;
    while i < notes.len()
        invariant
            i <= notes@.len(),
            ps == pairs_of(notes@),
            out@ == encoded(ps.take(i as int)),
        decreases notes@.len() - i,
    {
        let n = &notes[i];
        let dtv = chars_of(n.datetime.as_str());
        let dn = dtv.len();
        push_range(&mut out, &dtv, 0, dn);
        out.push('\n');
        let bv = chars_of(n.note.as_str());
        let eb = escape_chars(&bv);
        let en = eb.len();
        push_range(&mut out, &eb, 0, en);
        out.push('\n');
        proof {
            assert(ps.take(i + 1) =~= ps.take(i as int) + seq![ps[i as int]]);
            lemma_encoded_add(ps.take(i as int), seq![ps[i as int]]);
            lemma_encoded_one(ps[i as int]);
            assert(ps[i as int] == (notes@[i as int]@.datetime, notes@[i as int]@.note));
            assert(dtv@.subrange(0, dn as int) =~= dtv@);
            assert(eb@.subrange(0, en as int) =~= eb@);
            assert(out@ =~= encoded(ps.take(i + 1)));
        }
        i += 1;
    }
    proof {
        assert(ps.take(ps.len() as int) =~= ps);
    }
    string_of(&out)
}

/// Parse the records of `v` into notes, rebuilding each note's title from
/// its body.
fn decode_rec(v: Vec<char>) -> (r: Result<Vec<Note>, ParseError>)
    ensures
        match r {
            Ok(notes) => {
                &&& decoded(v@) == Some(pairs_of(notes@))
                &&& forall|i: int|
                    0 <= i < notes@.len() ==> (#[trigger] notes@[i]).wf()
                        && notes@[i]@.directory == Seq::<char>::empty()
            },
            Err(_) => decoded(v@) is None,
        },
    decreases v@.len(),
{
    if v.len() == 0 {
        let notes: Vec<Note> = Vec::new();
        proof {
            assert(pairs_of(notes@) =~= Seq::<(Seq<char>, Seq<char>)>::empty());
        }
        Ok(notes)
    } else {
        let e1 = find_char(&v, '\n', 0);
        if e1 == 0 || e1 >= v.len() {
            return Err(ParseError);
        }
        let dt = copy_range(&v, 0, e1);
        let vlen = v.len();
        let rest1 = copy_range(&v, e1 + 1, vlen);
        proof {
            assert(rest1@ =~= v@.skip(e1 + 1));
        }
        let e2 = find_char(&rest1, '\n', 0);
        if e2 >= rest1.len() {
            return Err(ParseError);
        }
        let bline = copy_range(&rest1, 0, e2);
        match unescape_rec(&bline, 0) {
            None => {
                proof {
                    assert(bline@.skip(0) =~= bline@);
                }
                Err(ParseError)
            },
            Some(body) => {
                proof {
                    assert(bline@.skip(0) =~= bline@);
                }
                let rlen = rest1.len();
                let tailv = copy_range(&rest1, e2 + 1, rlen);
                proof {
                    assert(tailv@ =~= rest1@.skip(e2 + 1));
                }
                match decode_rec(tailv) {
                    Err(e) => Err(e),
                    Ok(tail_notes) => {
                        let dts = string_of(&dt);
                        let bodys = string_of(&body);
                        let title = derive_title(bodys.as_str());
                        let n = Note {
                            datetime: dts,
                            directory: String::new(),
                            title,
                            note: bodys,
                        };
                        let ghost tail_view = tail_notes@;
                        let mut notes = tail_notes;
                        notes.insert(0, n);
                        proof {
                            assert(notes@ =~= seq![n] + tail_view);
                            assert(pairs_of(notes@) =~= seq![(dt@, body@)] + pairs_of(tail_view));
                            assert forall|i: int| 0 <= i < notes@.len() implies
                                (#[trigger] notes@[i]).wf() && notes@[i]@.directory
                                    == Seq::<char>::empty() by {
                                if i > 0 {
                                    assert(notes@[i] == tail_view[i - 1]);
                                }
                            }
                        }
                        Ok(notes)
                    },
                }
            },
        }
    }
}

/// Parse the aggregate file's text back into the collection it encodes.
/// Empty text yields the empty collection; any malformed content — a record
/// truncated before its terminating newline, an empty timestamp, a bad
/// escape — is a [`ParseError`], never a partial collection.
pub fn decode(s: &str) -> (r: Result<Vec<Note>, ParseError>)
    ensures
        match r {
            Ok(notes) => {
                &&& decoded(s@) == Some(pairs_of(notes@))
                &&& forall|i: int|
                    0 <= i < notes@.len() ==> (#[trigger] notes@[i]).wf()
                        && notes@[i]@.directory == Seq::<char>::empty()
            },
            Err(_) => decoded(s@) is None,
        },
{
    let v = chars_of(s);
    decode_rec(v)
}

} // verus!
