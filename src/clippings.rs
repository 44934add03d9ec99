//! Parsing of an e-reader's clippings export: records are split on the
//! `==========` line, each record is read into a `Clip`, and consecutive clips of
//! one book are grouped into `BookClips`.
use vstd::prelude::*;

use crate::date::{date_of, date_of_chars, LocalDateTime};
use crate::error::ParseError;
use crate::text::{
    chars_of, chomp_cr, chomp_eol, digits_end, digits_to_usize, digits_value, find_char,
    find_char_from, find_digits_end, find_last, find_seq, find_seq_from, last_index_of,
    lemma_digits_end, lemma_find_char_from, lemma_find_seq_from, lemma_last_index_of, occurs,
    occurs_at, string_of, string_without_bom, without_bom,
};

verus! {

/// One highlight or note.
#[derive(Debug, PartialEq, Eq)]
pub struct Clip {
    pub book: String,
    pub author: String,
    pub content: String,
    pub date: LocalDateTime,
    /// Start and end locations.
    pub location: (usize, usize),
}

/// A book's identity (copied from its first clip) and its clips, in file order.
#[derive(Debug, PartialEq, Eq)]
pub struct BookClips {
    pub book_name: String,
    pub author: String,
    pub clips: Vec<Clip>,
}

pub struct ClipView {
    pub book: Seq<char>,
    pub author: Seq<char>,
    pub content: Seq<char>,
    pub date: LocalDateTime,
    pub location: (usize, usize),
}

pub struct BookClipsView {
    pub book_name: Seq<char>,
    pub author: Seq<char>,
    pub clips: Seq<ClipView>,
}

impl View for Clip {
    type V = ClipView;

    open spec fn view(&self) -> ClipView {
        ClipView {
            book: self.book@,
            author: self.author@,
            content: self.content@,
            date: self.date,
            location: self.location,
        }
    }
}

pub open spec fn clips_view(cs: Seq<Clip>) -> Seq<ClipView> {
    cs.map_values(|c: Clip| c@)
}

impl View for BookClips {
    type V = BookClipsView;

    open spec fn view(&self) -> BookClipsView {
        BookClipsView {
            book_name: self.book_name@,
            author: self.author@,
            clips: clips_view(self.clips@),
        }
    }
}

pub open spec fn books_view(bs: Seq<BookClips>) -> Seq<BookClipsView> {
    bs.map_values(|b: BookClips| b@)
}

// ---------------------------------------------------------------------------
// Title and author
// ---------------------------------------------------------------------------
/// The line ends with the group ` (<author>)` that starts at `p`, and `<author>`
/// holds no `)`.
pub open spec fn author_group_at(l: Seq<char>, p: int) -> bool {
    &&& 0 <= p
    &&& p + 3 <= l.len()
    &&& l[p] == ' '
    &&& l[p + 1] == '('
    &&& l.last() == ')'
    &&& forall|j: int| p + 2 <= j < l.len() - 1 ==> l[j] != ')'
}

/// Where the author group of a title line starts (the first position at which
/// `author_group_at` holds), or `l.len()` when the line has none.
pub open spec fn author_group_start(l: Seq<char>) -> int {
    if l.len() == 0 || l.last() != ')' {
        l.len() as int
    } else {
        find_seq_from(l, " ("@, last_index_of(l.drop_last(), ')') + 1)
    }
}

/// The title and the author of a title line (without its line break). The title
/// is everything before the author group, byte-order marks removed; parenthesised
/// groups inside it stay part of it.
pub open spec fn title_author(l: Seq<char>) -> Result<(Seq<char>, Seq<char>), ParseError> {
    let p = author_group_start(l);
    if p < l.len() {
        Ok((without_bom(l.take(p)), l.subrange(p + 2, l.len() - 1)))
    } else {
        Err(ParseError::StructuralParseError)
    }
}

/// The title and author of the first line of `s`, which must end with a line break.
pub open spec fn first_row(s: Seq<char>) -> Result<(Seq<char>, Seq<char>), ParseError> {
    let e = find_char_from(s, '\n', 0);
    if e < s.len() {
        title_author(chomp_cr(s.take(e)))
    } else {
        Err(ParseError::StructuralParseError)
    }
}

/// The author group starts at the first position where one can start.
pub proof fn lemma_author_group_start(l: Seq<char>)
    ensures
        0 <= author_group_start(l) <= l.len(),
        author_group_start(l) < l.len() <==> exists|p: int| author_group_at(l, p),
        author_group_start(l) < l.len() ==> author_group_at(l, author_group_start(l)),
        forall|q: int| 0 <= q < author_group_start(l) ==> !author_group_at(l, q),
{
    reveal_strlit(" (");
    if l.len() == 0 || l.last() != ')' {
        assert forall|q: int| #![auto] 0 <= q < l.len() implies !author_group_at(l, q) by {}
    } else {
        let k = last_index_of(l.drop_last(), ')');
        lemma_last_index_of(l.drop_last(), ')');
        lemma_find_seq_from(l, " ("@, k + 1);
        let p = author_group_start(l);
        assert forall|q: int| 0 <= q < p implies !author_group_at(l, q) by {
            if author_group_at(l, q) {
                if q <= k {
                    // `)` at k lies inside the author group
                    assert(l.drop_last()[k] == l[k]);
                    assert(q + 2 <= k || l[k] == ' ' || l[k] == '(');
                } else {
                    assert(l.subrange(q, q + 2) =~= " ("@);
                    assert(occurs_at(l, " ("@, q));
                }
            }
        }
        if p < l.len() {
            assert(l.subrange(p, p + 2) == " ("@);
            assert(l.subrange(p, p + 2)[0] == ' ');
            assert(l.subrange(p, p + 2)[1] == '(');
            assert forall|j: int| p + 2 <= j < l.len() - 1 implies l[j] != ')' by {
                assert(l.drop_last()[j] == l[j]);
            }
            assert(author_group_at(l, p));
        } else {
            assert forall|q: int| #![auto] 0 <= q implies !author_group_at(l, q) by {
                if q >= p {
                    assert(!(q + 3 <= l.len()));
                }
            }
        }
    }
}

fn title_author_exec(l: &[char]) -> (r: Result<(String, String), ParseError>)
    ensures
        match r {
            Ok((t, a)) => title_author(l@) == Ok::<_, ParseError>((t@, a@)),
            Err(e) => title_author(l@) == Err::<(Seq<char>, Seq<char>), _>(e),
        },
{
    let n = l.len();
    if n == 0 || l[n - 1] != ')' {
        return Err(ParseError::StructuralParseError);
    }
    let head = vstd::slice::slice_subrange(l, 0, n - 1);
    assert(head@ =~= l@.drop_last());
    let start = find_last(head, ')');
    proof {
        lemma_last_index_of(head@, ')');
    }
    let pat = chars_of(" (");
    let p = find_seq(l, pat.as_slice(), start);
    if p >= n {
        return Err(ParseError::StructuralParseError);
    }
    proof {
        lemma_author_group_start(l@);
    }
    let title = string_without_bom(vstd::slice::slice_subrange(l, 0, p));
    let author = string_of(vstd::slice::slice_subrange(l, p + 2, n - 1));
    Ok((title, author))
}

/// `s[a..b]` less the carriage return of a CRLF line ending.
fn line_between<'a>(s: &'a [char], a: usize, b: usize) -> (r: &'a [char])
    requires
        a <= b <= s@.len(),
    ensures
        r@ == chomp_cr(s@.subrange(a as int, b as int)),
{
    if b > a && s[b - 1] == '\r' {
        let r = vstd::slice::slice_subrange(s, a, b - 1);
        assert(r@ =~= s@.subrange(a as int, b as int).drop_last());
        r
    } else {
        vstd::slice::slice_subrange(s, a, b)
    }
}

/// Reads the first row of a record, `<title> (<author>)` and its line break, into
/// the title and the author. The author is the last parenthesised group of the
/// line; earlier groups, such as `(2022)`, belong to the title.
pub fn nom_first_row(input: &str) -> (r: Result<(String, String), ParseError>)
    ensures
        match r {
            Ok((t, a)) => first_row(input@) == Ok::<_, ParseError>((t@, a@)),
            Err(e) => first_row(input@) == Err::<(Seq<char>, Seq<char>), _>(e),
        },
{
    let v = chars_of(input);
    let s = v.as_slice();
    let e = find_char(s, '\n', 0);
    if e >= s.len() {
        return Err(ParseError::StructuralParseError);
    }
    assert(s@.subrange(0, e as int) =~= s@.take(e as int));
    title_author_exec(line_between(s, 0, e))
}

// ---------------------------------------------------------------------------
// Location clause
// ---------------------------------------------------------------------------
/// The text `<start><one character><end> |` from `i` on, both numbers non-empty runs
/// of digits: the positions of the separator and of the end of `<end>`.
pub open spec fn range_at(l: Seq<char>, i: int) -> Option<(int, int)> {
    let k1 = digits_end(l, i);
    let k2 = digits_end(l, k1 + 1);
    if k1 == i || k1 >= l.len() || k2 == k1 + 1 || !occurs_at(l, " |"@, k2) {
        None
    } else {
        Some((k1, k2))
    }
}

/// The location range written from `i` on, and the index just past its ` |`.
/// Numbers beyond `usize`, or a start past the end, are numeric errors.
pub open spec fn range_value(l: Seq<char>, i: int) -> Result<(usize, usize, int), ParseError> {
    match range_at(l, i) {
        None => Err(ParseError::StructuralParseError),
        Some((k1, k2)) => {
            let start = digits_value(l.subrange(i, k1));
            let end = digits_value(l.subrange(k1 + 1, k2));
            if start > usize::MAX || end > usize::MAX || start > end {
                Err(ParseError::NumericFormatError)
            } else {
                Ok((start as usize, end as usize, k2 + 2))
            }
        },
    }
}

/// Paged format: `... location <start>-<end> |`. Everything before the first
/// `location` is skipped, a page clause included.
pub open spec fn location_paged(l: Seq<char>) -> Result<(usize, usize, int), ParseError> {
    let i = find_seq_from(l, "location"@, 0);
    if i < l.len() && occurs_at(l, "location "@, i) {
        range_value(l, i + "location "@.len())
    } else {
        Err(ParseError::StructuralParseError)
    }
}

/// Unpaged format: `- Your Highlight at location <start>-<end> |`.
pub open spec fn location_unpaged(l: Seq<char>) -> Result<(usize, usize, int), ParseError> {
    if occurs_at(l, "- Your Highlight at location "@, 0) {
        range_value(l, "- Your Highlight at location "@.len() as int)
    } else {
        Err(ParseError::StructuralParseError)
    }
}

/// The paged format is tried first, then the unpaged one; when neither matches,
/// the error is the paged format's.
pub open spec fn location_clause(l: Seq<char>) -> Result<(usize, usize, int), ParseError> {
    match location_paged(l) {
        Ok(x) => Ok(x),
        Err(e) => match location_unpaged(l) {
            Ok(y) => Ok(y),
            Err(_) => Err(e),
        },
    }
}

fn range_value_exec(l: &[char], i: usize) -> (r: Result<(usize, usize, usize), ParseError>)
    requires
        i <= l@.len(),
    ensures
        match r {
            Ok((a, b, e)) => range_value(l@, i as int) == Ok::<_, ParseError>((a, b, e as int))
                && e <= l@.len() && a <= b,
            Err(x) => range_value(l@, i as int) == Err::<(usize, usize, int), _>(x),
        },
{
    let k1 = find_digits_end(l, i);
    proof {
        lemma_digits_end(l@, i as int);
    }
    if k1 == i || k1 >= l.len() {
        return Err(ParseError::StructuralParseError);
    }
    let k2 = find_digits_end(l, k1 + 1);
    proof {
        lemma_digits_end(l@, k1 + 1);
    }
    let bar = chars_of(" |");
    if k2 == k1 + 1 || !occurs(l, bar.as_slice(), k2) {
        return Err(ParseError::StructuralParseError);
    }
    proof {
        reveal_strlit(" |");
    }
    let first = vstd::slice::slice_subrange(l, i, k1);
    let second = vstd::slice::slice_subrange(l, k1 + 1, k2);
    let start = digits_to_usize(first);
    let end = digits_to_usize(second);
    match (start, end) {
        (Some(a), Some(b)) => {
            if a > b {
                Err(ParseError::NumericFormatError)
            } else {
                Ok((a, b, k2 + 2))
            }
        },
        _ => Err(ParseError::NumericFormatError),
    }
}

fn location_paged_exec(l: &[char]) -> (r: Result<(usize, usize, usize), ParseError>)
    ensures
        match r {
            Ok((a, b, e)) => location_paged(l@) == Ok::<_, ParseError>((a, b, e as int))
                && e <= l@.len() && a <= b,
            Err(x) => location_paged(l@) == Err::<(usize, usize, int), _>(x),
        },
{
    let word = chars_of("location");
    let i = find_seq(l, word.as_slice(), 0);
    let word_sp = chars_of("location ");
    if i < l.len() && occurs(l, word_sp.as_slice(), i) {
        range_value_exec(l, i + word_sp.len())
    } else {
        Err(ParseError::StructuralParseError)
    }
}

fn location_unpaged_exec(l: &[char]) -> (r: Result<(usize, usize, usize), ParseError>)
    ensures
        match r {
            Ok((a, b, e)) => location_unpaged(l@) == Ok::<_, ParseError>((a, b, e as int))
                && e <= l@.len() && a <= b,
            Err(x) => location_unpaged(l@) == Err::<(usize, usize, int), _>(x),
        },
{
    let prefix = chars_of("- Your Highlight at location ");
    if occurs(l, prefix.as_slice(), 0) {
        range_value_exec(l, prefix.len())
    } else {
        Err(ParseError::StructuralParseError)
    }
}

fn location_clause_exec(l: &[char]) -> (r: Result<(usize, usize, usize), ParseError>)
    ensures
        match r {
            Ok((a, b, e)) => location_clause(l@) == Ok::<_, ParseError>((a, b, e as int))
                && e <= l@.len() && a <= b,
            Err(x) => location_clause(l@) == Err::<(usize, usize, int), _>(x),
        },
{
    match location_paged_exec(l) {
        Ok(x) => Ok(x),
        Err(e) => match location_unpaged_exec(l) {
            Ok(y) => Ok(y),
            Err(_) => Err(e),
        },
    }
}

/// Reads the location clause in its paged form,
/// `- Your Highlight on page <N> | location <start>-<end> |`, into the start and
/// end locations. The unpaged form is accepted too, since it holds `location`.
pub fn nom_location_2023_02(input: &str) -> (r: Result<(usize, usize), ParseError>)
    ensures
        match r {
            Ok((a, b)) => location_paged(input@) matches Ok((x, y, _)) && a == x && b == y,
            Err(e) => location_paged(input@) == Err::<(usize, usize, int), _>(e),
        },
{
    let v = chars_of(input);
    match location_paged_exec(v.as_slice()) {
        Ok((a, b, _)) => Ok((a, b)),
        Err(e) => Err(e),
    }
}

/// Reads the location clause in its unpaged form,
/// `- Your Highlight at location <start>-<end> |`, into the start and end locations.
pub fn nom_location_old(input: &str) -> (r: Result<(usize, usize), ParseError>)
    ensures
        match r {
            Ok((a, b)) => location_unpaged(input@) matches Ok((x, y, _)) && a == x && b == y,
            Err(e) => location_unpaged(input@) == Err::<(usize, usize, int), _>(e),
        },
{
    let v = chars_of(input);
    match location_unpaged_exec(v.as_slice()) {
        Ok((a, b, _)) => Ok((a, b)),
        Err(e) => Err(e),
    }
}

// ---------------------------------------------------------------------------
// Records
// ---------------------------------------------------------------------------
/// The second line of a record: the location clause, then, after the first `, `
/// that follows it (which ends the weekday), the date.
pub open spec fn details(l: Seq<char>) -> Result<((usize, usize), LocalDateTime), ParseError> {
    match location_clause(l) {
        Err(e) => Err(e),
        Ok((a, b, end)) => {
            let c = find_seq_from(l, ", "@, end);
            if c < l.len() {
                match date_of(l.subrange(c + 2, l.len() as int)) {
                    Err(e) => Err(e),
                    Ok(d) => Ok(((a, b), d)),
                }
            } else {
                Err(ParseError::StructuralParseError)
            }
        },
    }
}

/// The three lines that open a record: title line, details line, blank line.
/// Gives the title, author, location and date, and where the content starts.
pub open spec fn record_head(r: Seq<char>) -> Result<
    (Seq<char>, Seq<char>, (usize, usize), LocalDateTime, int),
    ParseError,
> {
    let e1 = find_char_from(r, '\n', 0);
    let e2 = find_char_from(r, '\n', e1 + 1);
    let e3 = find_char_from(r, '\n', e2 + 1);
    if e1 >= r.len() {
        Err(ParseError::StructuralParseError)
    } else {
        match title_author(chomp_cr(r.take(e1))) {
            Err(e) => Err(e),
            Ok((book, author)) => if e2 >= r.len() {
                Err(ParseError::StructuralParseError)
            } else {
                match details(chomp_cr(r.subrange(e1 + 1, e2))) {
                    Err(e) => Err(e),
                    Ok((location, date)) => if e3 >= r.len() || chomp_cr(
                        r.subrange(e2 + 1, e3),
                    ).len() > 0 {
                        Err(ParseError::StructuralParseError)
                    } else {
                        Ok((book, author, location, date, e3 + 1))
                    },
                }
            },
        }
    }
}

/// The clip that the record text `r` holds (without its delimiter), or why it
/// is rejected. The content is all that follows the blank line, verbatim, less
/// the one line break that ends it.
pub open spec fn record_clip(r: Seq<char>) -> Result<ClipView, ParseError> {
    match record_head(r) {
        Err(e) => Err(e),
        Ok((book, author, location, date, k)) => Ok(
            ClipView {
                book,
                author,
                content: chomp_eol(r.subrange(k, r.len() as int)),
                date,
                location,
            },
        ),
    }
}

pub open spec fn clip_result_view(r: Result<Clip, ParseError>) -> Result<ClipView, ParseError> {
    match r {
        Ok(c) => Ok(c@),
        Err(e) => Err(e),
    }
}

fn details_exec(l: &[char]) -> (r: Result<((usize, usize), LocalDateTime), ParseError>)
    ensures
        r == details(l@),
        r matches Ok((loc, d)) ==> d.wf() && loc.0 <= loc.1,
{
    let (a, b, end) = match location_clause_exec(l) {
        Ok(x) => x,
        Err(e) => return Err(e),
    };
    let comma = chars_of(", ");
    let c = find_seq(l, comma.as_slice(), end);
    if c >= l.len() {
        return Err(ParseError::StructuralParseError);
    }
    proof {
        lemma_find_seq_from(l@, ", "@, end as int);
        reveal_strlit(", ");
    }
    match date_of_chars(vstd::slice::slice_subrange(l, c + 2, l.len())) {
        Err(e) => Err(e),
        Ok(d) => Ok(((a, b), d)),
    }
}

/// `s` less the one line break that ends it, if any.
fn without_eol<'a>(s: &'a [char]) -> (r: &'a [char])
    ensures
        r@ == chomp_eol(s@),
{
    let n = s.len();
    if n > 0 && s[n - 1] == '\n' {
        let r = line_between(s, 0, n - 1);
        assert(s@.subrange(0, n - 1) =~= s@.drop_last());
        r
    } else {
        s
    }
}

/// Reads one record, held as characters, into a clip.
pub fn parse_record(r: &[char]) -> (res: Result<Clip, ParseError>)
    ensures
        clip_result_view(res) == record_clip(r@),
        res matches Ok(c) ==> c.date.wf() && c.location.0 <= c.location.1,
{
    let n = r.len();
    let e1 = find_char(r, '\n', 0);
    proof {
        lemma_find_char_from(r@, '\n', 0);
    }
    if e1 >= n {
        return Err(ParseError::StructuralParseError);
    }
    assert(r@.subrange(0, e1 as int) =~= r@.take(e1 as int));
    let (book, author) = match title_author_exec(line_between(r, 0, e1)) {
        Ok(x) => x,
        Err(e) => return Err(e),
    };
    let e2 = find_char(r, '\n', e1 + 1);
    proof {
        lemma_find_char_from(r@, '\n', e1 + 1);
    }
    if e2 >= n {
        return Err(ParseError::StructuralParseError);
    }
    let (location, date) = match details_exec(line_between(r, e1 + 1, e2)) {
        Ok(x) => x,
        Err(e) => return Err(e),
    };
    let e3 = find_char(r, '\n', e2 + 1);
    proof {
        lemma_find_char_from(r@, '\n', e2 + 1);
    }
    if e3 >= n || line_between(r, e2 + 1, e3).len() > 0 {
        return Err(ParseError::StructuralParseError);
    }
    let content = string_of(without_eol(vstd::slice::slice_subrange(r, e3 + 1, n)));
    Ok(Clip { book, author, content, date, location })
}

/// Reads one record of the export (the text between two delimiters) into a clip:
/// the title line, the details line (location and date), a blank line, and the
/// content.
pub fn nom_single_clip(input: &str) -> (res: Result<Clip, ParseError>)
    ensures
        clip_result_view(res) == record_clip(input@),
        res matches Ok(c) ==> c.date.wf() && c.location.0 <= c.location.1,
{
    let v = chars_of(input);
    parse_record(v.as_slice())
}

// ---------------------------------------------------------------------------
// Splitting the export into records
// ---------------------------------------------------------------------------
/// Ten `=` from `i` on.
pub open spec fn rule_at(s: Seq<char>, i: int) -> bool {
    0 <= i && i + 10 <= s.len() && forall|j: int| i <= j < i + 10 ==> s[j] == '='
}

/// The length of the delimiter line, `==========` and its line break (`\n` or
/// `\r\n`), that starts at `i`; 0 when none starts there. A delimiter line starts
/// at the beginning of the text or right after a `\n`.
pub open spec fn delimiter_len(s: Seq<char>, i: int) -> int {
    if 0 <= i && (i == 0 || s[i - 1] == '\n') && rule_at(s, i) {
        if i + 10 < s.len() && s[i + 10] == '\n' {
            11
        } else if i + 11 < s.len() && s[i + 10] == '\r' && s[i + 11] == '\n' {
            12
        } else {
            0
        }
    } else {
        0
    }
}

/// A resume marker starts at `i`: a delimiter line right after another one.
pub open spec fn marker_at(s: Seq<char>, i: int) -> bool {
    delimiter_len(s, i) > 0 && delimiter_len(s, i + delimiter_len(s, i)) > 0
}

/// The end of the last resume marker that starts at or after `i`, or `cur` if
/// there is none.
pub open spec fn live_from(s: Seq<char>, i: int, cur: int) -> int
    decreases s.len() - i,
{
    if i >= s.len() {
        cur
    } else if marker_at(s, i) {
        live_from(
            s,
            i + 1,
            i + delimiter_len(s, i) + delimiter_len(s, i + delimiter_len(s, i)),
        )
    } else {
        live_from(s, i + 1, cur)
    }
}

/// Where the live input starts: right after the last resume marker, or at 0.
/// What comes before was handled by an earlier run.
pub open spec fn live_start(s: Seq<char>) -> int {
    live_from(s, 0, 0)
}

/// The non-empty stretches of text between delimiter lines, from `st` on, with
/// the scan at `i`.
pub open spec fn pieces(s: Seq<char>, st: int, i: int) -> Seq<(int, int)>
    decreases s.len() - i,
{
    if i >= s.len() {
        if st < s.len() {
            seq![(st, s.len() as int)]
        } else {
            seq![]
        }
    } else if delimiter_len(s, i) > 0 {
        (if st < i {
            seq![(st, i)]
        } else {
            seq![]
        }) + pieces(s, i + delimiter_len(s, i), i + delimiter_len(s, i))
    } else {
        pieces(s, st, i + 1)
    }
}

/// The records of the export: the live input split on delimiter lines, empty
/// stretches left out.
pub open spec fn records(s: Seq<char>) -> Seq<Seq<char>> {
    pieces(s, live_start(s), live_start(s)).map_values(|p: (int, int)| s.subrange(p.0, p.1))
}

pub open spec fn ranges_view(v: Seq<(usize, usize)>) -> Seq<(int, int)> {
    v.map_values(|p: (usize, usize)| (p.0 as int, p.1 as int))
}

fn delimiter_len_exec(s: &[char], i: usize) -> (r: usize)
    requires
        i <= s@.len(),
    ensures
        r == delimiter_len(s@, i as int),
        i + r <= s@.len(),
{
    if !(i == 0 || s[i - 1] == '\n') || s.len() - i <= 10 {
        return 0;
    }
    let mut j: usize = 0;
    while j < 10
        invariant
            j <= 10,
            i + 10 < s.len(),
            forall|k: int| i <= k < i + j ==> s@[k] == '=',
        decreases 10 - j,
    {
        if s[i + j] != '=' {
            return 0;
        }
        j += 1;
    }
    if s[i + 10] == '\n' {
        11
    } else if s.len() - i > 11 && s[i + 10] == '\r' && s[i + 11] == '\n' {
        12
    } else {
        0
    }
}

fn live_start_exec(s: &[char]) -> (r: usize)
    ensures
        r == live_start(s@),
        r <= s@.len(),
{
    let mut cur: usize = 0;
    let mut i: usize = 0;
    while i < s.len()
        invariant
            i <= s@.len(),
            cur <= s@.len(),
            live_from(s@, i as int, cur as int) == live_start(s@),
        decreases s@.len() - i,
    {
        let d1 = delimiter_len_exec(s, i);
        if d1 > 0 {
            let d2 = delimiter_len_exec(s, i + d1);
            if d2 > 0 {
                cur = i + d1 + d2;
            }
        }
        i += 1;
    }
    cur
}

/// The ranges of the records of `s`, in order.
fn record_ranges(s: &[char]) -> (r: Vec<(usize, usize)>)
    ensures
        ranges_view(r@) == pieces(s@, live_start(s@), live_start(s@)),
        forall|k: int| #![trigger r@[k]] 0 <= k < r@.len() ==> r@[k].0 < r@[k].1 <= s@.len(),
{
    let live = live_start_exec(s);
    let mut out: Vec<(usize, usize)> = Vec::new();
    let mut st = live;
    let mut i = live;
    while i < s.len()
        invariant
            st <= i <= s@.len(),
            pieces(s@, live as int, live as int) == ranges_view(out@) + pieces(
                s@,
                st as int,
                i as int,
            ),
            forall|k: int| #![trigger out@[k]] 0 <= k < out@.len() ==> out@[k].0 < out@[k].1 <= s@.len(),
        decreases s@.len() - i,
    {
        let d = delimiter_len_exec(s, i);
        if d > 0 {
            let ghost rest = pieces(s@, (i + d) as int, (i + d) as int);
            if st < i {
                let ghost old_out = ranges_view(out@);
                out.push((st, i));
                assert(ranges_view(out@) =~= old_out.push((st as int, i as int)));
                assert(old_out + (seq![(st as int, i as int)] + rest) =~= ranges_view(out@)
                    + rest);
            } else {
                assert(seq![] + rest =~= rest);
            }
            st = i + d;
            i = i + d;
        } else {
            i += 1;
        }
    }
    if st < s.len() {
        let ghost old_out = ranges_view(out@);
        out.push((st, s.len()));
        assert(ranges_view(out@) =~= old_out.push((st as int, s@.len() as int)));
        assert(ranges_view(out@) =~= old_out + seq![(st as int, s@.len() as int)]);
    } else {
        assert(ranges_view(out@) + seq![] =~= ranges_view(out@));
    }
    out
}

// ---------------------------------------------------------------------------
// Grouping
// ---------------------------------------------------------------------------
/// The clip belongs to the group's book: title and author are equal.
pub open spec fn same_book(g: BookClipsView, c: ClipView) -> bool {
    g.book_name == c.book && g.author == c.author
}

pub open spec fn single_group(c: ClipView) -> BookClipsView {
    BookClipsView { book_name: c.book, author: c.author, clips: seq![c] }
}

/// Adds one clip: to the last group when it is of the same book, else as a new group.
pub open spec fn group_step(gs: Seq<BookClipsView>, c: ClipView) -> Seq<BookClipsView> {
    if gs.len() > 0 && same_book(gs.last(), c) {
        gs.update(
            gs.len() - 1,
            BookClipsView {
                book_name: gs.last().book_name,
                author: gs.last().author,
                clips: gs.last().clips.push(c),
            },
        )
    } else {
        gs.push(single_group(c))
    }
}

/// Consecutive clips of the same book, merged into one group each, in file order.
pub open spec fn group(cs: Seq<ClipView>) -> Seq<BookClipsView>
    decreases cs.len(),
{
    if cs.len() == 0 {
        seq![]
    } else {
        group_step(group(cs.drop_last()), cs.last())
    }
}

/// All clips of `rs` in order, or the error of the first record that fails.
pub open spec fn parse_all(rs: Seq<Seq<char>>) -> Result<Seq<ClipView>, ParseError>
    decreases rs.len(),
{
    if rs.len() == 0 {
        Ok(seq![])
    } else {
        match parse_all(rs.drop_last()) {
            Err(e) => Err(e),
            Ok(cs) => match record_clip(rs.last()) {
                Err(e) => Err(e),
                Ok(c) => Ok(cs.push(c)),
            },
        }
    }
}

/// The books of the export `s`, or why it is rejected: every record must parse.
pub open spec fn clippings_of(s: Seq<char>) -> Result<Seq<BookClipsView>, ParseError> {
    match parse_all(records(s)) {
        Ok(cs) => Ok(group(cs)),
        Err(e) => Err(e),
    }
}

proof fn lemma_parse_all_err(rs: Seq<Seq<char>>, k: int, e: ParseError)
    requires
        0 <= k <= rs.len(),
        parse_all(rs.take(k)) == Err::<Seq<ClipView>, _>(e),
    ensures
        parse_all(rs) == Err::<Seq<ClipView>, _>(e),
    decreases rs.len() - k,
{
    if k < rs.len() {
        assert(rs.take(k + 1).drop_last() =~= rs.take(k));
        lemma_parse_all_err(rs, k + 1, e);
    } else {
        assert(rs.take(k) =~= rs);
    }
}

fn push_clip(books: &mut Vec<BookClips>, c: Clip)
    ensures
        books_view(final(books)@) == group_step(books_view(old(books)@), c@),
{
    let ghost old_view = books_view(books@);
    let n = books.len();
    if n > 0 && books[n - 1].book_name == c.book && books[n - 1].author == c.author {
        let mut last = books.pop().unwrap();
        let ghost old_clips = last.clips@;
        let ghost cv = c@;
        last.clips.push(c);
        assert(clips_view(last.clips@) =~= clips_view(old_clips).push(cv));
        books.push(last);
        assert(books_view(books@) =~= group_step(old_view, cv));
    } else {
        let book_name = c.book.clone();
        let author = c.author.clone();
        let ghost cv = c@;
        let mut clips: Vec<Clip> = Vec::new();
        clips.push(c);
        assert(clips_view(clips@) =~= seq![cv]);
        books.push(BookClips { book_name, author, clips });
        assert(books_view(books@) =~= group_step(old_view, cv));
    }
}

/// Parses a clippings export into its books. Only the text after the last
/// resume marker (a delimiter line right after another) is read. The export is
/// split on `==========` lines, each record is read into a clip, and consecutive
/// clips of the same book and author form one `BookClips`. Any record that does
/// not parse rejects the whole export, with that record's error.
pub fn parse_clips(input: &str) -> (r: Result<Vec<BookClips>, ParseError>)
    ensures
        match r {
            Ok(bs) => clippings_of(input@) == Ok::<_, ParseError>(books_view(bs@)),
            Err(e) => clippings_of(input@) == Err::<Seq<BookClipsView>, _>(e),
        },
{
    let v = chars_of(input);
    let s = v.as_slice();
    let ranges = record_ranges(s);
    let ghost rs = records(s@);
    let mut books: Vec<BookClips> = Vec::new();
    let ghost mut cs: Seq<ClipView> = seq![];
    let mut k: usize = 0;
    assert(rs.take(0) =~= seq![]);
    while k < ranges.len()
        invariant
            k <= ranges@.len(),
            s@ == input@,
            rs == records(s@),
            rs == ranges_view(ranges@).map_values(|p: (int, int)| s@.subrange(p.0, p.1)),
            forall|j: int| #![trigger ranges@[j]] 0 <= j < ranges@.len() ==> ranges@[j].0 < ranges@[j].1
                <= s@.len(),
            parse_all(rs.take(k as int)) == Ok::<_, ParseError>(cs),
            books_view(books@) == group(cs),
        decreases ranges@.len() - k,
    {
        let (a, b) = ranges[k];
        let rec = vstd::slice::slice_subrange(s, a, b);
        assert(rs[k as int] == rec@);
        assert(rs.take(k + 1).drop_last() =~= rs.take(k as int));
        match parse_record(rec) {
            Err(e) => {
                proof {
                    lemma_parse_all_err(rs, k + 1, e);
                }
                return Err(e);
            },
            Ok(c) => {
                proof {
                    let old_cs = cs;
                    cs = cs.push(c@);
                    assert(cs.drop_last() =~= old_cs);
                }
                push_clip(&mut books, c);
            },
        }
        k += 1;
    }
    assert(rs.take(k as int) =~= rs);
    Ok(books)
}

} // verus!
