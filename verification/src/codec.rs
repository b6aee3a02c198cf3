//! The on-disk text format.
//!
//! One record per line, `<name>: <mobile>: <work>`, lines separated by a
//! single newline with no terminator after the last record; an empty book
//! is an empty file. Reading splits each non-empty line on `": "`, takes
//! the first three fields and ignores the rest, and rejects the whole
//! file when a non-empty line yields fewer than three; a repeated name
//! keeps the values of its later line.

use crate::book::map_of;
use crate::book::sorted_by_name;
use crate::book::spec_insert;
use crate::book::EntryV;
use crate::book::PhoneBook;
use crate::book::RecV;
use crate::entry::PhoneEntry;
use vstd::prelude::*;
use vstd::string::StrSliceExecFns;
use vstd::string::StringExecFns;

verus! {

/// The field delimiter, colon-space.
pub open spec fn delim() -> Seq<char> {
    seq![':', ' ']
}

/// The record separator, one newline.
pub open spec fn nl() -> Seq<char> {
    seq!['\n']
}

/// The pattern `d` occurs in `s` at position `i`.
pub open spec fn occ_at(s: Seq<char>, d: Seq<char>, i: int) -> bool {
    0 <= i && i + d.len() <= s.len() && s.subrange(i, i + d.len() as int) == d
}

/// The pattern `d` occurs somewhere in `s`.
pub open spec fn has_occ(s: Seq<char>, d: Seq<char>) -> bool {
    exists|i: int| occ_at(s, d, i)
}

/// The position of the leftmost occurrence of `d` in `s`, or -1.
pub open spec fn first_occ(s: Seq<char>, d: Seq<char>) -> int
    decreases s.len(),
{
    if d.len() == 0 || s.len() < d.len() {
        -1
    } else if s.subrange(0, d.len() as int) == d {
        0
    } else {
        let r = first_occ(s.subrange(1, s.len() as int), d);
        if r == -1 {
            -1
        } else {
            r + 1
        }
    }
}

/// Splitting on a delimiter, leftmost occurrence first, as `str::split`
/// does: a sequence of pieces, one more than there are occurrences
/// consumed, so the result is never empty.
pub open spec fn split_on(s: Seq<char>, d: Seq<char>) -> Seq<Seq<char>>
    decreases s.len(),
{
    if d.len() == 0 || s.len() == 0 {
        seq![s]
    } else {
        let i = first_occ(s, d);
        if i < 0 {
            seq![s]
        } else {
            let rest = if i + d.len() <= s.len() {
                s.subrange(i + d.len() as int, s.len() as int)
            } else {
                Seq::empty()
            };
            seq![s.subrange(0, i)] + split_on(rest, d)
        }
    }
}

/// No proper suffix of `d` is one of its prefixes: an occurrence of `d`
/// cannot straddle a piece boundary that `d` itself ends.
pub open spec fn border_free(d: Seq<char>) -> bool {
    forall|j: int|
        1 <= j < d.len() ==> d.subrange(j, d.len() as int) != d.subrange(0, d.len() - j)
}

/// Occurrences in a suffix are occurrences in the whole, shifted.
proof fn lemma_occ_shift(s: Seq<char>, d: Seq<char>, start: int, q: int)
    requires
        0 <= start <= s.len(),
        0 <= q,
    ensures
        occ_at(s.subrange(start, s.len() as int), d, q) == occ_at(s, d, q + start),
{
    let u = s.subrange(start, s.len() as int);
    if q + d.len() <= u.len() {
        assert(u.subrange(q, q + d.len() as int) =~= s.subrange(q + start, q + start + d.len() as int));
    }
}

/// What the leftmost-occurrence position means.
proof fn lemma_first_occ_spec(s: Seq<char>, d: Seq<char>)
    requires
        d.len() >= 1,
    ensures
        first_occ(s, d) == -1 ==> !has_occ(s, d),
        first_occ(s, d) != -1 ==> {
            &&& 0 <= first_occ(s, d)
            &&& occ_at(s, d, first_occ(s, d))
            &&& forall|i: int| 0 <= i < first_occ(s, d) ==> !occ_at(s, d, i)
        },
    decreases s.len(),
{
    if s.len() < d.len() {
        assert forall|i: int| !occ_at(s, d, i) by {}
    } else if s.subrange(0, d.len() as int) == d {
    } else {
        let tail = s.subrange(1, s.len() as int);
        lemma_first_occ_spec(tail, d);
        let r = first_occ(tail, d);
        if r == -1 {
            assert forall|i: int| !occ_at(s, d, i) by {
                if i == 0 {
                    assert(!occ_at(s, d, 0));
                } else if i >= 1 {
                    lemma_occ_shift(s, d, 1, i - 1);
                }
            }
        } else {
            lemma_occ_shift(s, d, 1, r);
            assert(occ_at(s, d, r + 1));
            assert forall|i: int| 0 <= i < r + 1 implies !occ_at(s, d, i) by {
                if i == 0 {
                    assert(!occ_at(s, d, 0));
                } else {
                    lemma_occ_shift(s, d, 1, i - 1);
                }
            }
        }
    }
}

/// The leftmost occurrence is the one a scan finds: an occurrence with
/// none before it.
proof fn lemma_first_occ_exact(s: Seq<char>, d: Seq<char>, i: int)
    requires
        d.len() >= 1,
        occ_at(s, d, i),
        forall|j: int| 0 <= j < i ==> !occ_at(s, d, j),
    ensures
        first_occ(s, d) == i,
{
    lemma_first_occ_spec(s, d);
    let f = first_occ(s, d);
    if f == -1 {
        assert(has_occ(s, d));
    } else {
        if f < i {
            assert(!occ_at(s, d, f));
        }
        if i < f {
            assert(!occ_at(s, d, i));
        }
    }
}

/// Nowhere an occurrence: the scan finds nothing.
proof fn lemma_first_occ_none(s: Seq<char>, d: Seq<char>)
    requires
        d.len() >= 1,
        !has_occ(s, d),
    ensures
        first_occ(s, d) == -1,
{
    lemma_first_occ_spec(s, d);
}

/// A piece with no occurrence splits into itself alone.
proof fn lemma_split_no_occ(s: Seq<char>, d: Seq<char>)
    requires
        d.len() >= 1,
        !has_occ(s, d),
    ensures
        split_on(s, d) == seq![s],
{
    if s.len() > 0 {
        lemma_first_occ_none(s, d);
    }
}

/// Splitting a piece, the delimiter, and a remainder takes the piece off
/// the front: the leftmost occurrence is exactly the delimiter written
/// between them.
proof fn lemma_split_concat(p: Seq<char>, d: Seq<char>, rest: Seq<char>)
    requires
        d.len() >= 1,
        border_free(d),
        !has_occ(p, d),
    ensures
        split_on(p + d + rest, d) == seq![p] + split_on(rest, d),
{
    let s = p + d + rest;
    assert(occ_at(s, d, p.len() as int)) by {
        assert(s.subrange(p.len() as int, p.len() + d.len() as int) =~= d);
    }
    assert forall|i: int| 0 <= i < p.len() implies !occ_at(s, d, i) by {
        if occ_at(s, d, i) {
            if i + d.len() <= p.len() {
                assert(occ_at(p, d, i)) by {
                    assert(p.subrange(i, i + d.len() as int) =~= s.subrange(i, i + d.len() as int));
                }
            } else {
                let j = p.len() - i;
                assert(1 <= j < d.len());
                assert(d.subrange(j, d.len() as int) =~= d.subrange(0, d.len() - j)) by {
                    assert forall|t: int| 0 <= t < d.len() - j implies d.subrange(
                        j,
                        d.len() as int,
                    )[t] == d.subrange(0, d.len() - j)[t] by {
                        // Both sides are characters of s inside the
                        // occurrence at i and inside the explicit copy of
                        // d that follows p.
                        assert(d[j + t] == s.subrange(i, i + d.len() as int)[j + t]);
                        assert(s[i + j + t] == s[p.len() + t]);
                        assert(d[t] == s.subrange(p.len() as int, p.len() + d.len() as int)[t]);
                    }
                }
            }
        }
    }
    lemma_first_occ_exact(s, d, p.len() as int);
    assert(s.subrange(0, p.len() as int) =~= p);
    assert(s.subrange(p.len() + d.len() as int, s.len() as int) =~= rest);
    if rest.len() == 0 {
        assert(split_on(rest, d) == seq![rest]);
        assert(split_on(s, d) =~= seq![p] + split_on(rest, d));
    } else {
        assert(split_on(s, d) =~= seq![p] + split_on(rest, d));
    }
}

/// A single-character pattern occurs exactly where the character does.
proof fn lemma_single_char_occ(s: Seq<char>, c: char)
    ensures
        has_occ(s, seq![c]) <==> s.contains(c),
{
    if has_occ(s, seq![c]) {
        let i = choose|i: int| occ_at(s, seq![c], i);
        assert(s.subrange(i, i + 1)[0] == s[i]);
    }
    if s.contains(c) {
        let i = choose|i: int| 0 <= i < s.len() && s[i] == c;
        assert(occ_at(s, seq![c], i)) by {
            assert(s.subrange(i, i + 1) =~= seq![c]);
        }
    }
}

/// A character stands in a concatenation where it stands in a part.
proof fn lemma_contains_concat(a: Seq<char>, b: Seq<char>, c: char)
    ensures
        (a + b).contains(c) <==> (a.contains(c) || b.contains(c)),
{
    if (a + b).contains(c) {
        let i = choose|i: int| 0 <= i < (a + b).len() && (a + b)[i] == c;
        if i < a.len() {
            assert(a[i] == c);
        } else {
            assert(b[i - a.len()] == c);
        }
    }
    if a.contains(c) {
        let i = choose|i: int| 0 <= i < a.len() && a[i] == c;
        assert((a + b)[i] == c);
    }
    if b.contains(c) {
        let i = choose|i: int| 0 <= i < b.len() && b[i] == c;
        assert((a + b)[a.len() + i] == c);
    }
}

/// A field value the format can carry faithfully: free of the delimiter
/// and of the record separator.
pub open spec fn clean_field(x: Seq<char>) -> bool {
    !has_occ(x, delim()) && !x.contains('\n')
}

/// A record all of whose fields the format can carry faithfully.
pub open spec fn clean_rec(r: RecV) -> bool {
    clean_field(r.0) && clean_field(r.1.0) && clean_field(r.1.1)
}

/// One record's line: name, mobile and work, delimiter-joined.
pub open spec fn rec_line(r: RecV) -> Seq<char> {
    r.0 + delim() + r.1.0 + delim() + r.1.1
}

/// The whole book's text: record lines joined by single newlines, with
/// no trailing newline; the empty book is the empty text.
pub open spec fn encode_book(s: Seq<RecV>) -> Seq<char>
    decreases s.len(),
{
    if s.len() == 0 {
        Seq::empty()
    } else if s.len() == 1 {
        rec_line(s[0])
    } else {
        rec_line(s[0]) + nl() + encode_book(s.subrange(1, s.len() as int))
    }
}

/// What reading a sequence of lines into an accumulated book yields:
/// empty lines are skipped, a non-empty line with fewer than three
/// fields rejects the whole read, and otherwise the first three fields
/// are inserted, later lines overwriting earlier ones of the same name.
pub open spec fn parse_lines(ls: Seq<Seq<char>>, acc: Seq<RecV>) -> Option<Seq<RecV>>
    decreases ls.len(),
{
    if ls.len() == 0 {
        Some(acc)
    } else if ls[0].len() == 0 {
        parse_lines(ls.subrange(1, ls.len() as int), acc)
    } else {
        let fs = split_on(ls[0], delim());
        if fs.len() < 3 {
            None
        } else {
            parse_lines(
                ls.subrange(1, ls.len() as int),
                spec_insert(acc, fs[0], (fs[1], fs[2])),
            )
        }
    }
}

/// What reading a whole text yields: its newline-split lines, read in
/// order into an empty book.
pub open spec fn parse_text(t: Seq<char>) -> Option<Seq<RecV>> {
    parse_lines(split_on(t, nl()), Seq::empty())
}

/// The delimiter has no border: no proper suffix of `": "` is a prefix.
proof fn lemma_delim_border_free()
    ensures
        border_free(delim()),
        border_free(nl()),
{
    assert forall|j: int| 1 <= j < delim().len() implies delim().subrange(
        j,
        delim().len() as int,
    ) != delim().subrange(0, delim().len() - j) by {
        assert(delim().subrange(1, 2)[0] == ' ');
        assert(delim().subrange(0, 1)[0] == ':');
    }
}

/// A clean record's line splits back into exactly its three fields.
proof fn lemma_fields_of_line(r: RecV)
    requires
        clean_rec(r),
    ensures
        split_on(rec_line(r), delim()) == seq![r.0, r.1.0, r.1.1],
{
    lemma_delim_border_free();
    let rest1 = r.1.0 + delim() + r.1.1;
    assert(rec_line(r) =~= r.0 + delim() + rest1);
    lemma_split_concat(r.0, delim(), rest1);
    lemma_split_concat(r.1.0, delim(), r.1.1);
    lemma_split_no_occ(r.1.1, delim());
    assert(split_on(rec_line(r), delim()) =~= seq![r.0, r.1.0, r.1.1]);
}

/// A clean record's line is non-empty and free of newlines.
proof fn lemma_line_no_nl(r: RecV)
    requires
        clean_rec(r),
    ensures
        !has_occ(rec_line(r), nl()),
        rec_line(r).len() >= 4,
{
    lemma_single_char_occ(rec_line(r), '\n');
    assert(!delim().contains('\n')) by {
        if delim().contains('\n') {
            let i = choose|i: int| 0 <= i < delim().len() && delim()[i] == '\n';
        }
    }
    lemma_contains_concat(r.0, delim(), '\n');
    lemma_contains_concat(r.0 + delim(), r.1.0, '\n');
    lemma_contains_concat(r.0 + delim() + r.1.0, delim(), '\n');
    lemma_contains_concat(r.0 + delim() + r.1.0 + delim(), r.1.1, '\n');
}

/// The encoded book splits on newlines into exactly the record lines.
proof fn lemma_lines_of_encode(s: Seq<RecV>)
    requires
        s.len() >= 1,
        forall|i: int| 0 <= i < s.len() ==> clean_rec(#[trigger] s[i]),
    ensures
        split_on(encode_book(s), nl()) == s.map_values(|r: RecV| rec_line(r)),
    decreases s.len(),
{
    lemma_delim_border_free();
    lemma_line_no_nl(s[0]);
    if s.len() == 1 {
        lemma_split_no_occ(rec_line(s[0]), nl());
        assert(split_on(encode_book(s), nl()) =~= s.map_values(|r: RecV| rec_line(r)));
    } else {
        let tail = s.subrange(1, s.len() as int);
        assert(forall|i: int| 0 <= i < tail.len() ==> clean_rec(#[trigger] tail[i]));
        lemma_lines_of_encode(tail);
        lemma_split_concat(rec_line(s[0]), nl(), encode_book(tail));
        assert(split_on(encode_book(s), nl()) =~= s.map_values(|r: RecV| rec_line(r)));
    }
}

/// Reading back the lines of a book whose names continue the accumulated
/// book's ascending names appends the records in order.
proof fn lemma_parse_encoded(s: Seq<RecV>, acc: Seq<RecV>)
    requires
        sorted_by_name(acc + s),
        forall|i: int| 0 <= i < s.len() ==> clean_rec(#[trigger] s[i]),
    ensures
        parse_lines(s.map_values(|r: RecV| rec_line(r)), acc) == Some(acc + s),
    decreases s.len(),
{
    let ls = s.map_values(|r: RecV| rec_line(r));
    if s.len() == 0 {
        assert(ls.len() == 0);
        assert(acc + s =~= acc);
    } else {
        let r = s[0];
        lemma_line_no_nl(r);
        lemma_fields_of_line(r);
        assert(ls[0] == rec_line(r));
        let fs = split_on(ls[0], delim());
        assert(fs.len() == 3 && fs[0] == r.0 && fs[1] == r.1.0 && fs[2] == r.1.1);
        assert((fs[1], fs[2]) == r.1);
        assert forall|j: int| 0 <= j < acc.len() implies crate::text::lex_lt(
            #[trigger] acc[j].0,
            r.0,
        ) by {
            assert((acc + s)[j] == acc[j]);
            assert((acc + s)[acc.len() as int] == r);
        }
        crate::book::lemma_insert_append(acc, r.0, r.1);
        assert(spec_insert(acc, fs[0], (fs[1], fs[2])) == acc.push(r));
        let tail = s.subrange(1, s.len() as int);
        assert(acc.push(r) + tail =~= acc + s);
        assert(forall|i: int| 0 <= i < tail.len() ==> clean_rec(#[trigger] tail[i]));
        lemma_parse_encoded(tail, acc.push(r));
        assert(ls.subrange(1, ls.len() as int) =~= tail.map_values(|q: RecV| rec_line(q)));
    }
}

/// The round trip: writing a book whose fields are all clean and reading
/// the text back reproduces the book, record for record.
pub proof fn lemma_round_trip(s: Seq<RecV>)
    requires
        sorted_by_name(s),
        forall|i: int| 0 <= i < s.len() ==> clean_rec(#[trigger] s[i]),
    ensures
        parse_text(encode_book(s)) == Some(s),
{
    if s.len() == 0 {
        let ls = split_on(encode_book(s), nl());
        assert(ls == seq![Seq::<char>::empty()]);
        assert(ls.subrange(1, 1) =~= Seq::<Seq<char>>::empty());
        assert(ls.len() == 1 && ls[0].len() == 0);
        assert(parse_lines(ls, Seq::<RecV>::empty()) == parse_lines(
            ls.subrange(1, 1),
            Seq::<RecV>::empty(),
        ));
        assert(parse_lines(Seq::<Seq<char>>::empty(), Seq::<RecV>::empty()) == Some(
            Seq::<RecV>::empty(),
        ));
        assert(s =~= Seq::<RecV>::empty());
    } else {
        lemma_lines_of_encode(s);
        assert(Seq::<RecV>::empty() + s =~= s);
        lemma_parse_encoded(s, Seq::<RecV>::empty());
    }
}

/// Whether the pattern stands in the string at the given position.
fn match_at(s: &str, d: &str, i: usize) -> (r: bool)
    requires
        i + d@.len() <= s@.len(),
    ensures
        r == occ_at(s@, d@, i as int),
{
    let slen = s.unicode_len();
    let dlen = d.unicode_len();
    let mut j: usize = 0;
    while j < dlen
        invariant
            j <= dlen,
            slen == s@.len(),
            dlen == d@.len(),
            i + dlen <= slen,
            forall|t: int| 0 <= t < j ==> s@[i + t] == d@[t],
        decreases dlen - j,
    {
        let cs = s.get_char(i + j);
        let cd = d.get_char(j);
        if (cs as u32) != (cd as u32) {
            proof {
                if occ_at(s@, d@, i as int) {
                    assert(s@.subrange(i as int, i + d@.len() as int)[j as int] == s@[i + j]);
                }
            }
            return false;
        }
        proof {
            vstd::utf8::char_u32_cast(cs, cs as u32);
            vstd::utf8::char_u32_cast(cd, cd as u32);
        }
        j = j + 1;
    }
    proof {
        assert(s@.subrange(i as int, i + d@.len() as int) =~= d@);
    }
    true
}

/// Whether the pattern stands somewhere in the string; every string
/// contains the empty pattern.
pub fn str_contains(s: &str, d: &str) -> (r: bool)
    ensures
        r == has_occ(s@, d@),
{
    let slen = s.unicode_len();
    let dlen = d.unicode_len();
    if dlen == 0 {
        proof {
            assert(occ_at(s@, d@, 0)) by {
                assert(s@.subrange(0, 0) =~= d@);
            }
        }
        return true;
    }
    let mut i: usize = 0;
    while dlen <= slen && i <= slen - dlen
        invariant
            slen == s@.len(),
            dlen == d@.len(),
            dlen >= 1,
            i <= slen,
            forall|q: int| 0 <= q < i ==> !occ_at(s@, d@, q),
        decreases slen - i,
    {
        if match_at(s, d, i) {
            return true;
        }
        i = i + 1;
    }
    proof {
        assert(!has_occ(s@, d@)) by {
            if has_occ(s@, d@) {
                let q = choose|q: int| occ_at(s@, d@, q);
                assert(0 <= q && q + d@.len() <= s@.len());
                assert(!occ_at(s@, d@, q));
            }
        }
    }
    false
}

/// Splits a string on a delimiter, leftmost occurrence first, exactly as
/// `split_on` describes.
pub fn split_str(s: &str, d: &str) -> (r: Vec<String>)
    requires
        d@.len() >= 1,
    ensures
        r@.map_values(|x: String| x@) == split_on(s@, d@),
{
    let slen = s.unicode_len();
    let dlen = d.unicode_len();
    let mut out: Vec<String> = Vec::new();
    let mut start: usize = 0;
    let mut i: usize = 0;
    proof {
        assert(s@.subrange(0, slen as int) =~= s@);
        assert(out@.map_values(|x: String| x@) =~= Seq::<Seq<char>>::empty());
    }
    while dlen <= slen && i <= slen - dlen
        invariant
            start <= i,
            i <= slen,
            slen == s@.len(),
            dlen == d@.len(),
            dlen >= 1,
            split_on(s@, d@) == out@.map_values(|x: String| x@) + split_on(
                s@.subrange(start as int, slen as int),
                d@,
            ),
            forall|q: int|
                0 <= q < i - start ==> !occ_at(
                    s@.subrange(start as int, slen as int),
                    d@,
                    q,
                ),
        decreases slen - i,
    {
        if match_at(s, d, i) {
            let piece = s.substring_char(start, i).to_owned();
            proof {
                let u = s@.subrange(start as int, slen as int);
                lemma_occ_shift(s@, d@, start as int, i - start);
                lemma_first_occ_exact(u, d@, i - start);
                assert(u.subrange(0, i - start) =~= s@.subrange(start as int, i as int));
                assert(u.subrange(i - start + d@.len() as int, u.len() as int) =~= s@.subrange(
                    i + dlen,
                    slen as int,
                ));
                assert(split_on(u, d@) == seq![piece@] + split_on(
                    s@.subrange(i + dlen, slen as int),
                    d@,
                ));
                assert(out@.push(piece).map_values(|x: String| x@) =~= out@.map_values(
                    |x: String| x@,
                ).push(piece@));
            }
            out.push(piece);
            let next = i + dlen;
            start = next;
            i = next;
        } else {
            proof {
                lemma_occ_shift(s@, d@, start as int, i - start);
            }
            i = i + 1;
        }
    }
    proof {
        let u = s@.subrange(start as int, slen as int);
        assert(!has_occ(u, d@)) by {
            if has_occ(u, d@) {
                let q = choose|q: int| occ_at(u, d@, q);
                assert(0 <= q && q + d@.len() <= u.len());
                assert(!occ_at(u, d@, q));
            }
        }
        lemma_split_no_occ(u, d@);
    }
    let last = s.substring_char(start, slen).to_owned();
    proof {
        assert(out@.push(last).map_values(|x: String| x@) =~= out@.map_values(
            |x: String| x@,
        ).push(last@));
        assert(out@.map_values(|x: String| x@).push(last@) =~= out@.map_values(|x: String| x@)
            + seq![last@]);
    }
    out.push(last);
    out
}

/// Serializing one more record extends the text by a separator (after
/// the first record) and the record's line.
proof fn lemma_encode_push(s: Seq<RecV>, i: int)
    requires
        0 <= i < s.len(),
    ensures
        i == 0 ==> encode_book(s.subrange(0, 1)) == rec_line(s[0]),
        i > 0 ==> encode_book(s.subrange(0, i + 1)) == encode_book(s.subrange(0, i)) + nl()
            + rec_line(s[i]),
    decreases i,
{
    if i == 0 {
        assert(s.subrange(0, 1)[0] == s[0]);
    } else {
        let p = s.subrange(0, i + 1);
        let tail = s.subrange(1, s.len() as int);
        assert(p.len() >= 2);
        assert(p[0] == s[0]);
        assert(p.subrange(1, p.len() as int) =~= tail.subrange(0, i));
        lemma_encode_push(tail, i - 1);
        if i == 1 {
            assert(tail.subrange(0, 1)[0] == s[1]);
            assert(encode_book(tail.subrange(0, 1)) == rec_line(s[1]));
            assert(s.subrange(0, 1)[0] == s[0]);
            assert(encode_book(s.subrange(0, 1)) == rec_line(s[0]));
            assert(encode_book(p) =~= encode_book(s.subrange(0, 1)) + nl() + rec_line(s[1]));
        } else {
            let q = s.subrange(0, i);
            assert(q.len() >= 2);
            assert(q[0] == s[0]);
            assert(q.subrange(1, q.len() as int) =~= tail.subrange(0, i - 1));
            assert(tail[i - 1] == s[i]);
            assert(encode_book(q) == rec_line(s[0]) + nl() + encode_book(tail.subrange(0, i - 1)));
            assert(encode_book(p) == rec_line(s[0]) + nl() + (encode_book(tail.subrange(0, i - 1))
                + nl() + rec_line(s[i])));
            assert(encode_book(p) =~= encode_book(q) + nl() + rec_line(s[i]));
        }
    }
}

/// Writes a book out in its text form: records in the book's (sorted)
/// order, fields delimiter-joined, lines newline-separated, no trailing
/// newline, the empty book as the empty text.
pub fn serialize(book: &PhoneBook) -> (r: String)
    ensures
        r@ == encode_book(book@),
{
    let mut out = String::new();
    let n = book.len();
    let mut i: usize = 0;
    proof {
        assert(book@.subrange(0, 0) =~= Seq::<RecV>::empty());
    }
    while i < n
        invariant
            i <= n,
            n == book@.len(),
            out@ == encode_book(book@.subrange(0, i as int)),
        decreases n - i,
    {
        proof {
            reveal_strlit("\n");
            reveal_strlit(": ");
            assert("\n"@ =~= nl());
            assert(": "@ =~= delim());
        }
        if i > 0 {
            out.append("\n");
        }
        out.append(book.name_at(i).as_str());
        out.append(": ");
        out.append(book.entry_at(i).mobile.as_str());
        out.append(": ");
        out.append(book.entry_at(i).work.as_str());
        proof {
            lemma_encode_push(book@, i as int);
            assert(out@ =~= encode_book(book@.subrange(0, i as int + 1)));
        }
        i = i + 1;
    }
    proof {
        assert(book@.subrange(0, n as int) =~= book@);
    }
    out
}

/// How a load or a save fails: the underlying file operation, the
/// file's bytes not being text, or a line not fitting the record grammar.
#[derive(Debug)]
pub enum StoreError {
    Io(String),
    Decode(String),
    Format(String),
}

/// The message text a failure carries.
pub open spec fn error_text(e: StoreError) -> Seq<char> {
    match e {
        StoreError::Io(m) => m@,
        StoreError::Decode(m) => m@,
        StoreError::Format(m) => m@,
    }
}

impl StoreError {
    /// The failure's message text.
    pub fn message(&self) -> (r: &String)
        ensures
            match self {
                StoreError::Io(m) => r@ == m@,
                StoreError::Decode(m) => r@ == m@,
                StoreError::Format(m) => r@ == m@,
            },
    {
        match self {
            StoreError::Io(m) => m,
            StoreError::Decode(m) => m,
            StoreError::Format(m) => m,
        }
    }
}

/// Reads a text back into a book: exactly `parse_text`, with the whole
/// read rejected when any non-empty line has fewer than three fields.
pub fn parse(text: &str) -> (r: Result<PhoneBook, StoreError>)
    ensures
        match r {
            Ok(b) => parse_text(text@) == Some(b@) && b.wf(),
            Err(e) => parse_text(text@) is None && match e {
                StoreError::Format(m) => m@ == "Invalid file"@,
                _ => false,
            },
        },
{
    proof {
        reveal_strlit("\n");
        reveal_strlit(": ");
        assert("\n"@ =~= nl());
        assert(": "@ =~= delim());
    }
    let lines = split_str(text, "\n");
    let ghost lv = lines@.map_values(|x: String| x@);
    proof {
        assert(lv == split_on(text@, nl()));
        assert(lv.subrange(0, lv.len() as int) =~= lv);
    }
    let mut book = PhoneBook::new();
    let n = lines.len();
    let mut i: usize = 0;
    while i < n
        invariant
            i <= n,
            n == lines@.len(),
            lv == lines@.map_values(|x: String| x@),
            book.wf(),
            parse_lines(lv.subrange(i as int, lv.len() as int), book@) == parse_text(text@),
        decreases n - i,
    {
        let ghost rem = lv.subrange(i as int, lv.len() as int);
        proof {
            assert(lv[i as int] == lines@[i as int]@);
            assert(rem[0] == lv[i as int]);
            assert(rem.subrange(1, rem.len() as int) =~= lv.subrange(i as int + 1, lv.len() as int));
        }
        let line = &lines[i];
        if !line.as_str().is_empty() {
            proof {
                reveal_strlit(": ");
                assert(": "@ =~= delim());
            }
            let mut fields = split_str(line.as_str(), ": ");
            let ghost fs = split_on(lv[i as int], delim());
            proof {
                assert(fields@.map_values(|x: String| x@) == fs);
                assert(fields@.len() == fs.len());
            }
            if fields.len() < 3 {
                proof {
                    reveal_strlit("Invalid file");
                }
                return Err(StoreError::Format("Invalid file".to_owned()));
            }
            let ghost fv0 = fields@;
            let f0 = fields.remove(0);
            let ghost fv1 = fields@;
            let f1 = fields.remove(0);
            let ghost fv2 = fields@;
            let f2 = fields.remove(0);
            proof {
                assert(fv1 =~= fv0.subrange(1, fv0.len() as int));
                assert(fv2 =~= fv0.subrange(2, fv0.len() as int));
                assert(f0@ == fs[0]);
                assert(f1@ == fv0[1]@ && fv0[1]@ == fs[1]);
                assert(f2@ == fv0[2]@ && fv0[2]@ == fs[2]);
            }
            let e = PhoneEntry::new(f1, f2);
            let ghost prev = book@;
            proof {
                assert(e@ == (fs[1], fs[2]));
            }
            book.insert(f0, e);
            proof {
                assert(book@ == spec_insert(prev, fs[0], (fs[1], fs[2])));
            }
        }
        i = i + 1;
    }
    proof {
        assert(lv.subrange(n as int, lv.len() as int) =~= Seq::<Seq<char>>::empty());
    }
    Ok(book)
}

/// The format's documented limitation: a mobile value holding the
/// delimiter splits into extra fields on read, the first of them read as
/// the mobile, the second as the work, and everything after the third
/// field — here the written work value — silently dropped.
pub proof fn lemma_delimiter_collision(
    name: Seq<char>,
    m1: Seq<char>,
    m2: Seq<char>,
    work: Seq<char>,
)
    requires
        clean_field(name),
        clean_field(m1),
        clean_field(m2),
        clean_field(work),
    ensures
        parse_text(encode_book(seq![(name, (m1 + delim() + m2, work))])) == Some(
            seq![(name, (m1, m2))],
        ),
{
    lemma_delim_border_free();
    let mob = m1 + delim() + m2;
    let r: RecV = (name, (mob, work));
    let line = rec_line(r);
    assert(seq![r][0] == r);
    assert(encode_book(seq![r]) == line);

    // The line holds no newline, so it is the text's only line.
    assert(!delim().contains('\n')) by {
        if delim().contains('\n') {
            let i = choose|i: int| 0 <= i < delim().len() && delim()[i] == '\n';
        }
    }
    lemma_contains_concat(m1, delim(), '\n');
    lemma_contains_concat(m1 + delim(), m2, '\n');
    lemma_contains_concat(name, delim(), '\n');
    lemma_contains_concat(name + delim(), mob, '\n');
    lemma_contains_concat(name + delim() + mob, delim(), '\n');
    lemma_contains_concat(name + delim() + mob + delim(), work, '\n');
    lemma_single_char_occ(line, '\n');
    lemma_split_no_occ(line, nl());

    // The line splits on the delimiter into four fields, not three.
    let rest2 = m2 + delim() + work;
    let rest1 = m1 + delim() + rest2;
    assert(line =~= name + delim() + rest1);
    lemma_split_concat(name, delim(), rest1);
    lemma_split_concat(m1, delim(), rest2);
    lemma_split_concat(m2, delim(), work);
    lemma_split_no_occ(work, delim());
    let fs = split_on(line, delim());
    assert(fs =~= seq![name, m1, m2, work]);

    // Reading takes the first three fields and drops the fourth.
    let ls = split_on(encode_book(seq![r]), nl());
    assert(ls == seq![line]);
    assert(line.len() > 0);
    assert(ls.subrange(1, 1) =~= Seq::<Seq<char>>::empty());
    assert(spec_insert(Seq::<RecV>::empty(), name, (m1, m2)) == seq![(name, (m1, m2))]);
    assert(fs.len() == 4 && fs[0] == name && fs[1] == m1 && fs[2] == m2);
    assert(parse_lines(ls, Seq::<RecV>::empty()) == parse_lines(
        ls.subrange(1, 1),
        spec_insert(Seq::<RecV>::empty(), name, (m1, m2)),
    ));
    assert(parse_lines(Seq::<Seq<char>>::empty(), seq![(name, (m1, m2))]) == Some(
        seq![(name, (m1, m2))],
    ));
}

/// Last write wins: of two inserts under one name, the later one's
/// values are the ones the mapping retains.
pub proof fn lemma_last_write_wins(s: Seq<RecV>, k: Seq<char>, v1: EntryV, v2: EntryV)
    requires
        sorted_by_name(s),
    ensures
        map_of(spec_insert(spec_insert(s, k, v1), k, v2)) == map_of(s).insert(k, v2),
{
    crate::book::lemma_insert_sorted(s, k, v1);
    crate::book::lemma_insert_map(s, k, v1);
    crate::book::lemma_insert_map(spec_insert(s, k, v1), k, v2);
    assert(map_of(s).insert(k, v1).insert(k, v2) =~= map_of(s).insert(k, v2));
}

} // verus!
