//! Laws of the parser and the grouper, stated over the spec functions that the
//! executable functions' contracts use.
use vstd::prelude::*;

use crate::clippings::{
    author_group_start, clippings_of, delimiter_len, first_row, group, group_step, live_from,
    live_start, marker_at, parse_all, pieces, record_clip, record_head, records, same_book,
    single_group, title_author, BookClipsView, ClipView,
};
use crate::date::{date_of, month_number, three_seps, two_seps};
use crate::error::ParseError;
use crate::text::{
    chomp_cr, find_char_from, find_seq_from, last_index_of, lemma_find_char_from,
    lemma_find_seq_from, lemma_last_index_of, occurs_at, without_bom,
};

verus! {

/// All clips of `cs` belong to the book and author of `c`.
pub open spec fn all_of_book(cs: Seq<ClipView>, c: ClipView) -> bool {
    forall|i: int|
        #![trigger cs[i]]
        0 <= i < cs.len() ==> cs[i].book == c.book && cs[i].author == c.author
}

pub open spec fn book_group(c: ClipView, cs: Seq<ClipView>) -> BookClipsView {
    BookClipsView { book_name: c.book, author: c.author, clips: cs }
}

proof fn lemma_group_last(cs: Seq<ClipView>)
    requires
        cs.len() > 0,
    ensures
        group(cs).len() > 0,
        group(cs).last().book_name == cs.last().book,
        group(cs).last().author == cs.last().author,
    decreases cs.len(),
{
    if cs.len() > 1 {
        lemma_group_last(cs.drop_last());
    }
}

proof fn lemma_step_concat(a: Seq<BookClipsView>, b: Seq<BookClipsView>, c: ClipView)
    requires
        b.len() > 0,
    ensures
        group_step(a + b, c) == a + group_step(b, c),
{
    assert((a + b).last() == b.last());
    if same_book(b.last(), c) {
        assert(group_step(a + b, c) =~= a + group_step(b, c));
    } else {
        assert(group_step(a + b, c) =~= a + group_step(b, c));
    }
}

/// N consecutive clips of one book and author form exactly one group, which
/// holds all N of them in their order.
pub proof fn lemma_group_one_book(cs: Seq<ClipView>)
    requires
        cs.len() > 0,
        all_of_book(cs, cs[0]),
    ensures
        group(cs) == seq![book_group(cs[0], cs)],
    decreases cs.len(),
{
    if cs.len() == 1 {
        assert(cs.drop_last() =~= seq![]);
        assert(group(cs.drop_last()) =~= Seq::<BookClipsView>::empty());
        assert(seq![cs[0]] =~= cs);
        assert(group(cs) =~= seq![book_group(cs[0], cs)]);
    } else {
        let init = cs.drop_last();
        assert(init[0] == cs[0]);
        assert(all_of_book(init, init[0]));
        lemma_group_one_book(init);
        assert(init.push(cs.last()) =~= cs);
        assert(group(cs) =~= seq![book_group(cs[0], cs)]);
    }
}

/// Where two runs meet at clips of different books, grouping the whole is grouping
/// each run on its own.
pub proof fn lemma_group_concat(x: Seq<ClipView>, y: Seq<ClipView>)
    requires
        x.len() > 0,
        y.len() > 0,
        !(x.last().book == y[0].book && x.last().author == y[0].author),
    ensures
        group(x + y) == group(x) + group(y),
    decreases y.len(),
{
    lemma_group_last(x);
    if y.len() == 1 {
        assert((x + y).drop_last() =~= x);
        assert((x + y).last() == y[0]);
        assert(y.drop_last() =~= seq![]);
        assert(group(y.drop_last()) =~= Seq::<BookClipsView>::empty());
        assert(group(y) =~= seq![single_group(y[0])]);
        assert(group(x + y) =~= group(x) + group(y));
    } else {
        let y1 = y.drop_last();
        assert((x + y).drop_last() =~= x + y1);
        assert((x + y).last() == y.last());
        assert(y1[0] == y[0]);
        lemma_group_concat(x, y1);
        lemma_group_last(y1);
        lemma_step_concat(group(x), group(y1), y.last());
    }
}

/// Clips of one book that are not adjacent, with clips of another book between
/// them, end up in two distinct groups, not one.
pub proof fn lemma_non_adjacent_same_book(xs: Seq<ClipView>, ys: Seq<ClipView>, zs: Seq<ClipView>)
    requires
        xs.len() > 0,
        ys.len() > 0,
        zs.len() > 0,
        all_of_book(xs, xs[0]),
        all_of_book(ys, ys[0]),
        all_of_book(zs, xs[0]),
        !(ys[0].book == xs[0].book && ys[0].author == xs[0].author),
    ensures
        group(xs + ys + zs) == seq![
            book_group(xs[0], xs),
            book_group(ys[0], ys),
            book_group(xs[0], zs),
        ],
        group(xs + ys + zs).len() == 3,
{
    assert(zs[0].book == xs[0].book && zs[0].author == xs[0].author);
    assert(all_of_book(zs, zs[0]));
    lemma_group_one_book(xs);
    lemma_group_one_book(ys);
    lemma_group_one_book(zs);
    assert(book_group(zs[0], zs) == book_group(xs[0], zs));
    lemma_group_concat(xs, ys);
    assert((xs + ys).last() == ys.last());
    lemma_group_concat(xs + ys, zs);
    assert(group(xs + ys + zs) =~= seq![
        book_group(xs[0], xs),
        book_group(ys[0], ys),
        book_group(xs[0], zs),
    ]);
}

/// A group holds at least one clip, and only clips of its own book and author.
pub open spec fn is_whole_group(g: BookClipsView) -> bool {
    &&& g.clips.len() > 0
    &&& forall|j: int|
        #![trigger g.clips[j]]
        0 <= j < g.clips.len() ==> g.clips[j].book == g.book_name && g.clips[j].author == g.author
}

pub open spec fn group_clips(gs: Seq<BookClipsView>) -> Seq<Seq<ClipView>> {
    gs.map_values(|g: BookClipsView| g.clips)
}

/// Grouping keeps every clip, once and in file order, and each group holds only
/// clips of its own book and author, at least one.
pub proof fn lemma_group_keeps_clips(cs: Seq<ClipView>)
    ensures
        group_clips(group(cs)).flatten() == cs,
        forall|i: int| 0 <= i < group(cs).len() ==> is_whole_group(#[trigger] group(cs)[i]),
    decreases cs.len(),
{
    broadcast use Seq::lemma_flatten_push;

    if cs.len() == 0 {
        assert(group_clips(group(cs)) =~= Seq::<Seq<ClipView>>::empty());
        assert(cs =~= Seq::<ClipView>::empty());
    } else {
        let init = cs.drop_last();
        let c = cs.last();
        lemma_group_keeps_clips(init);
        let gs = group(init);
        assert(init.push(c) =~= cs);
        if gs.len() > 0 && same_book(gs.last(), c) {
            let front = gs.drop_last();
            let g2 = BookClipsView {
                book_name: gs.last().book_name,
                author: gs.last().author,
                clips: gs.last().clips.push(c),
            };
            assert(group(cs) =~= front.push(g2));
            assert(gs =~= front.push(gs.last()));
            assert(group_clips(gs) =~= group_clips(front).push(gs.last().clips));
            assert(group_clips(group(cs)) =~= group_clips(front).push(g2.clips));
            assert(group_clips(front).flatten() + g2.clips =~= (group_clips(front).flatten()
                + gs.last().clips).push(c));
            assert(is_whole_group(gs[gs.len() - 1]));
            assert forall|i: int| 0 <= i < group(cs).len() implies is_whole_group(
                #[trigger] group(cs)[i],
            ) by {
                if i < gs.len() - 1 {
                    assert(group(cs)[i] == gs[i]);
                } else {
                    assert(group(cs)[i] == g2);
                    assert forall|j: int| 0 <= j < g2.clips.len() implies g2.clips[j].book
                        == g2.book_name && g2.clips[j].author == g2.author by {
                        if j < g2.clips.len() - 1 {
                            assert(g2.clips[j] == gs.last().clips[j]);
                        }
                    }
                }
            }
        } else {
            assert(group(cs) =~= gs.push(single_group(c)));
            assert(group_clips(group(cs)) =~= group_clips(gs).push(seq![c]));
            assert(init + seq![c] =~= cs);
            assert forall|i: int| 0 <= i < group(cs).len() implies is_whole_group(
                #[trigger] group(cs)[i],
            ) by {
                if i < gs.len() {
                    assert(group(cs)[i] == gs[i]);
                }
            }
        }
    }
}

proof fn lemma_last_index_of_concat(x: Seq<char>, y: Seq<char>, c: char)
    requires
        forall|j: int| 0 <= j < y.len() ==> y[j] != c,
    ensures
        last_index_of(x + y, c) == last_index_of(x, c),
    decreases y.len(),
{
    if y.len() == 0 {
        assert(x + y =~= x);
    } else {
        assert((x + y).drop_last() =~= x + y.drop_last());
        assert((x + y).last() == y.last());
        lemma_last_index_of_concat(x, y.drop_last(), c);
    }
}

proof fn lemma_title_line(t: Seq<char>, a: Seq<char>)
    requires
        forall|j: int| 0 <= j < a.len() ==> a[j] != ')',
        forall|p: int|
            last_index_of(t, ')') < p < t.len() - 1 ==> !(#[trigger] t[p] == ' ' && t[p + 1]
                == '('),
    ensures
        author_group_start(t + " ("@ + a + ")"@) == t.len(),
{
    reveal_strlit(" (");
    reveal_strlit(")");
    let l = t + " ("@ + a + ")"@;
    let n = t.len() as int;
    assert(l.len() == n + 2 + a.len() + 1);
    assert(l.last() == ')');
    let mid = " ("@ + a;
    assert forall|j: int| 0 <= j < mid.len() implies mid[j] != ')' by {
        if j >= 2 {
            assert(mid[j] == a[j - 2]);
        }
    }
    assert(l.drop_last() =~= t + mid);
    lemma_last_index_of_concat(t, mid, ')');
    lemma_last_index_of(t, ')');
    let k = last_index_of(t, ')');
    lemma_find_seq_from(l, " ("@, k + 1);
    let p = find_seq_from(l, " ("@, k + 1);
    assert(l.subrange(n, n + 2) =~= " ("@);
    assert(occurs_at(l, " ("@, n));
    assert forall|q: int| k + 1 <= q < n implies !occurs_at(l, " ("@, q) by {
        if occurs_at(l, " ("@, q) {
            assert(l.subrange(q, q + 2)[0] == ' ');
            assert(l.subrange(q, q + 2)[1] == '(');
            assert(l[q] == t[q]);
            if q < n - 1 {
                assert(l[q + 1] == t[q + 1]);
            } else {
                assert(l[q + 1] == ' ');
            }
        }
    }
    assert(p == n);
}

/// A title that holds parenthesised groups of its own, such as `(NEW) (2022)`, is
/// kept whole: only the last group of the line is the author. This holds when no
/// ` (` follows the title's last `)` (so the title does not itself end with an
/// open group) and the author holds no `)`.
pub proof fn lemma_title_with_parentheses(t: Seq<char>, a: Seq<char>)
    requires
        forall|j: int| 0 <= j < a.len() ==> a[j] != ')' && a[j] != '\n',
        forall|j: int| 0 <= j < t.len() ==> t[j] != '\n',
        forall|p: int|
            last_index_of(t, ')') < p < t.len() - 1 ==> !(#[trigger] t[p] == ' ' && t[p + 1]
                == '('),
    ensures
        title_author(t + " ("@ + a + ")"@) == Ok::<_, ParseError>((without_bom(t), a)),
        first_row(t + " ("@ + a + ")\n"@) == Ok::<_, ParseError>((without_bom(t), a)),
{
    reveal_strlit(" (");
    reveal_strlit(")");
    reveal_strlit(")\n");
    lemma_title_line(t, a);
    let l = t + " ("@ + a + ")"@;
    let n = t.len() as int;
    assert(l.len() == n + 2 + a.len() + 1);
    assert(l.take(n) =~= t);
    assert(l.subrange(n + 2, l.len() - 1) =~= a);
    let s = t + " ("@ + a + ")\n"@;
    assert(s =~= l.push('\n'));
    assert forall|j: int| 0 <= j < l.len() implies s[j] != '\n' by {
        if j < n {
            assert(s[j] == t[j]);
        } else if n + 2 <= j < n + 2 + a.len() {
            assert(s[j] == a[j - n - 2]);
        }
    }
    lemma_find_char_from(s, '\n', 0);
    assert(find_char_from(s, '\n', 0) == l.len());
    assert(s.take(l.len() as int) =~= l);
    assert(chomp_cr(l) == l);
}

/// A record whose first three lines parse is read whatever its content is; when
/// its content line is empty, the clip's content is the empty string.
pub proof fn lemma_empty_content(r: Seq<char>)
    requires
        record_head(r) is Ok,
    ensures
        record_clip(r) is Ok,
        ({
            let k = record_head(r)->Ok_0.4;
            (r.subrange(k, r.len() as int) == seq!['\n'] || r.subrange(k, r.len() as int) == seq![
                '\r',
                '\n',
            ] || r.subrange(k, r.len() as int) == Seq::<char>::empty()) ==> record_clip(
                r,
            )->Ok_0.content == Seq::<char>::empty()
        }),
{
    let k = record_head(r)->Ok_0.4;
    let rest = r.subrange(k, r.len() as int);
    if rest == seq!['\n'] {
        assert(rest.drop_last() =~= Seq::<char>::empty());
    } else if rest == seq!['\r', '\n'] {
        assert(rest.drop_last() =~= seq!['\r']);
        assert(rest.drop_last().drop_last() =~= Seq::<char>::empty());
    }
}

/// A date whose layout is right but whose month name is not in the month table
/// (such as `Decembre`) is rejected with `UnknownMonthError`, whatever its numbers.
pub proof fn lemma_unknown_month(d: Seq<char>)
    requires
        three_seps(d, ' ') is Some,
        two_seps(d.subrange(three_seps(d, ' ')->Some_0.2 + 1, d.len() as int), ':') is Some,
        month_number(
            d.subrange(three_seps(d, ' ')->Some_0.0 + 1, three_seps(d, ' ')->Some_0.1),
        ) == 0,
    ensures
        date_of(d) == Err::<crate::date::LocalDateTime, _>(ParseError::UnknownMonthError),
{
}

proof fn lemma_no_delimiter_before(r: Seq<char>, i: int)
    requires
        r.len() > 0,
        r.last() == '\n',
        0 <= i < r.len(),
        delimiter_len(r, i) == 0,
    ensures
        delimiter_len(r + "==========\n"@, i) == 0,
{
    reveal_strlit("==========\n");
    let s = r + "==========\n"@;
    assert(s.len() == r.len() + 11);
    if delimiter_len(s, i) > 0 {
        if i > 0 {
            assert(s[i - 1] == r[i - 1]);
        }
        if i + 10 >= r.len() {
            let j = r.len() - 1;
            assert(s[j] == '=');
            assert(s[j] == r[j]);
        }
        assert forall|j: int| i <= j < i + 10 implies r[j] == '=' by {
            assert(s[j] == '=');
            assert(s[j] == r[j]);
        }
        assert(s[i + 10] == r[i + 10]);
        if s[i + 10] != '\n' {
            assert(i + 10 != r.len() - 1);
            assert(s[i + 11] == r[i + 11]);
        }
        assert(crate::clippings::rule_at(r, i));
    }
}

proof fn lemma_pieces_skip(s: Seq<char>, st: int, i: int, k: int)
    requires
        0 <= st <= i <= k <= s.len(),
        forall|j: int| i <= j < k ==> delimiter_len(s, j) == 0,
    ensures
        pieces(s, st, i) == pieces(s, st, k),
    decreases k - i,
{
    if i < k {
        lemma_pieces_skip(s, st, i + 1, k);
    }
}

proof fn lemma_live_skip(s: Seq<char>, i: int, k: int, cur: int)
    requires
        0 <= i <= k <= s.len(),
        forall|j: int| i <= j < k ==> !marker_at(s, j),
    ensures
        live_from(s, i, cur) == live_from(s, k, cur),
    decreases k - i,
{
    if i < k {
        lemma_live_skip(s, i + 1, k, cur);
    }
}

/// A record that parses, ends with its line break and holds no delimiter line,
/// followed by one delimiter line, is split into exactly that one record, which is
/// read into its one clip and one group.
pub proof fn lemma_single_record(r: Seq<char>)
    requires
        r.len() > 0,
        r.last() == '\n',
        forall|i: int| 0 <= i < r.len() ==> delimiter_len(r, i) == 0,
        record_clip(r) is Ok,
    ensures
        records(r + "==========\n"@) == seq![r],
        parse_all(records(r + "==========\n"@)) == Ok::<_, ParseError>(
            seq![record_clip(r)->Ok_0],
        ),
        clippings_of(r + "==========\n"@) == Ok::<_, ParseError>(
            seq![single_group(record_clip(r)->Ok_0)],
        ),
{
    reveal_strlit("==========\n");
    let s = r + "==========\n"@;
    let n = r.len() as int;
    assert(s.len() == n + 11);
    assert forall|i: int| 0 <= i < n implies delimiter_len(s, i) == 0 by {
        lemma_no_delimiter_before(r, i);
    }
    assert(s[n - 1] == '\n');
    assert forall|j: int| n <= j < n + 10 implies s[j] == '=' by {}
    assert(crate::clippings::rule_at(s, n));
    assert(s[n + 10] == '\n');
    assert(delimiter_len(s, n) == 11);
    assert forall|i: int| n < i <= s.len() implies delimiter_len(s, i) == 0 by {}
    assert forall|i: int| 0 <= i < s.len() implies !marker_at(s, i) by {
        if i == n {
            assert(delimiter_len(s, n + 11) == 0);
        }
    }
    lemma_live_skip(s, 0, s.len() as int, 0);
    assert(live_start(s) == 0);
    lemma_pieces_skip(s, 0, 0, n);
    assert(pieces(s, n + 11, n + 11) =~= Seq::<(int, int)>::empty());
    assert(pieces(s, 0, 0) =~= seq![(0, n)]);
    assert(s.subrange(0, n) =~= r);
    assert(records(s) =~= seq![r]);
    let c = record_clip(r)->Ok_0;
    assert(seq![r].drop_last() =~= Seq::<Seq<char>>::empty());
    assert(parse_all(seq![r].drop_last()) == Ok::<_, ParseError>(Seq::<ClipView>::empty()));
    assert(seq![r].last() == r);
    assert(Seq::<ClipView>::empty().push(c) =~= seq![c]);
    assert(parse_all(seq![r]) == Ok::<_, ParseError>(seq![c]));
    assert(seq![c].drop_last() =~= Seq::<ClipView>::empty());
    assert(group(seq![c].drop_last()) =~= Seq::<BookClipsView>::empty());
    assert(group(seq![c]) =~= seq![single_group(c)]);
}

} // verus!
