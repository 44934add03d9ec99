//! The page that a book's clips become: a title, callouts for the full book name
//! and the author, a divider, and one quote per clip, long clips split into
//! several quotes.
use vstd::prelude::*;
use vstd::utf8::{encode_scalar, encode_utf8};

use crate::clippings::{clips_view, BookClips, BookClipsView, ClipView};
use crate::date::LocalDateTime;
use crate::text::{
    chars_of, find_char, find_char_from, find_seq, lemma_find_char_from, lemma_find_seq_from,
    occurs_at, string_of,
};

verus! {

#[derive(Debug, Clone, Copy, PartialEq, Eq, Structural)]
pub enum ObjectType {
    Block,
}

#[derive(Debug, Clone, Copy, PartialEq, Eq, Structural)]
pub enum BlockType {
    Callout,
    Divider,
    Quote,
}

#[derive(Debug, Clone, Copy, PartialEq, Eq, Structural)]
pub struct Divider {}

#[derive(Debug, Clone, Copy, PartialEq, Eq, Structural)]
pub enum Color {
    Default,
}

#[derive(Debug, PartialEq, Eq)]
pub struct Icon {
    pub emoji: String,
}

#[derive(Debug, Clone, Copy, PartialEq, Eq, Structural)]
pub enum TextType {
    Text,
    Mention,
}

#[derive(Debug, PartialEq, Eq)]
pub struct Text {
    pub content: String,
}

#[derive(Debug, Clone, Copy, PartialEq, Eq, Structural)]
pub struct Date {
    pub start: LocalDateTime,
}

#[derive(Debug, Clone, Copy, PartialEq, Eq, Structural)]
pub struct Mention {
    pub date: Option<Date>,
}

#[derive(Debug, PartialEq, Eq)]
pub struct RichText {
    pub text: Option<Text>,
    pub mention: Option<Mention>,
    pub type_field: TextType,
}

#[derive(Debug, PartialEq, Eq)]
pub struct Callout {
    pub color: Color,
    pub icon: Icon,
    pub rich_text: Vec<RichText>,
}

#[derive(Debug, PartialEq, Eq)]
pub struct Quote {
    pub rich_text: Vec<RichText>,
}

/// One block of the page; exactly one of `callout`, `divider` and `quote` is set,
/// the one that `type_field` names.
#[derive(Debug, PartialEq, Eq)]
pub struct Child {
    pub object: ObjectType,
    pub type_field: BlockType,
    pub callout: Option<Callout>,
    pub divider: Option<Divider>,
    pub quote: Option<Quote>,
}

#[derive(Debug, PartialEq, Eq)]
pub struct Parent {
    pub page_id: String,
}

#[derive(Debug, PartialEq, Eq)]
pub struct Title {
    pub text: Text,
}

#[derive(Debug, PartialEq, Eq)]
pub struct Properties {
    pub title: Vec<Title>,
}

/// The request body that creates one page.
#[derive(Debug, PartialEq, Eq)]
pub struct NotionPageQuery {
    pub parent: Parent,
    pub icon: Icon,
    pub properties: Properties,
    pub children: Vec<Child>,
}

/// A plain-text span holding `s`.
pub open spec fn is_text_span(r: RichText, s: Seq<char>) -> bool {
    &&& r.type_field == TextType::Text
    &&& r.mention is None
    &&& r.text matches Some(t) && t.content@ == s
}

/// A date mention of `d`.
pub open spec fn is_date_span(r: RichText, d: LocalDateTime) -> bool {
    &&& r.type_field == TextType::Mention
    &&& r.text is None
    &&& r.mention == Some(Mention { date: Some(Date { start: d }) })
}

pub open spec fn is_callout(c: Child, text: Seq<char>, emoji: Seq<char>) -> bool {
    &&& c.object == ObjectType::Block
    &&& c.type_field == BlockType::Callout
    &&& c.divider is None
    &&& c.quote is None
    &&& c.callout matches Some(co) && co.color == Color::Default && co.icon.emoji@ == emoji
        && co.rich_text@.len() == 1 && is_text_span(co.rich_text@[0], text)
}

pub open spec fn is_divider(c: Child) -> bool {
    &&& c.object == ObjectType::Block
    &&& c.type_field == BlockType::Divider
    &&& c.callout is None
    &&& c.divider == Some(Divider {  })
    &&& c.quote is None
}

/// A quote of `text`; with a date, the text is followed by a line break and a
/// mention of the date.
pub open spec fn is_quote(c: Child, text: Seq<char>, date: Option<LocalDateTime>) -> bool {
    &&& c.object == ObjectType::Block
    &&& c.type_field == BlockType::Quote
    &&& c.callout is None
    &&& c.divider is None
    &&& c.quote matches Some(q) && match date {
        None => q.rich_text@.len() == 1 && is_text_span(q.rich_text@[0], text),
        Some(d) => q.rich_text@.len() == 3 && is_text_span(q.rich_text@[0], text) && is_text_span(
            q.rich_text@[1],
            seq!['\n'],
        ) && is_date_span(q.rich_text@[2], d),
    }
}

/// What a block of the page shows.
pub enum BlockModel {
    Callout(Seq<char>, Seq<char>),
    Divider,
    Quote(Seq<char>, Option<LocalDateTime>),
}

pub open spec fn renders(c: Child, b: BlockModel) -> bool {
    match b {
        BlockModel::Callout(text, emoji) => is_callout(c, text, emoji),
        BlockModel::Divider => is_divider(c),
        BlockModel::Quote(text, date) => is_quote(c, text, date),
    }
}

pub open spec fn renders_all(cs: Seq<Child>, bs: Seq<BlockModel>) -> bool {
    cs.len() == bs.len() && forall|i: int| 0 <= i < cs.len() ==> renders(#[trigger] cs[i], bs[i])
}

impl Child {
    /// A callout block that shows `content` beside `emoji`.
    pub fn new_callout(content: String, emoji: &str) -> (r: Child)
        ensures
            is_callout(r, content@, emoji@),
    {
        let mut rich_text: Vec<RichText> = Vec::new();
        rich_text.push(
            RichText { text: Some(Text { content }), mention: None, type_field: TextType::Text },
        );
        let callout = Callout {
            color: Color::Default,
            icon: Icon { emoji: String::from_str(emoji) },
            rich_text,
        };
        Child {
            object: ObjectType::Block,
            type_field: BlockType::Callout,
            callout: Some(callout),
            divider: None,
            quote: None,
        }
    }

    /// A divider block.
    pub fn new_divider() -> (r: Child)
        ensures
            is_divider(r),
    {
        Child {
            object: ObjectType::Block,
            type_field: BlockType::Divider,
            callout: None,
            divider: Some(Divider {  }),
            quote: None,
        }
    }

    /// A quote block of `content`, followed, when a date is given, by a line break
    /// and a mention of that date.
    pub fn new_quote(content: String, date: Option<LocalDateTime>) -> (r: Child)
        ensures
            is_quote(r, content@, date),
    {
        let mut rich_text: Vec<RichText> = Vec::new();
        rich_text.push(
            RichText { text: Some(Text { content }), mention: None, type_field: TextType::Text },
        );
        if let Some(d) = date {
            let line_break = String::from_str("\n");
            proof {
                reveal_strlit("\n");
            }
            assert(line_break@ =~= seq!['\n']);
            rich_text.push(
                RichText {
                    text: Some(Text { content: line_break }),
                    mention: None,
                    type_field: TextType::Text,
                },
            );
            rich_text.push(
                RichText {
                    text: None,
                    mention: Some(Mention { date: Some(Date { start: d }) }),
                    type_field: TextType::Mention,
                },
            );
        }
        Child {
            object: ObjectType::Block,
            type_field: BlockType::Quote,
            callout: None,
            divider: None,
            quote: Some(Quote { rich_text }),
        }
    }
}

// ---------------------------------------------------------------------------
// Splitting long content
// ---------------------------------------------------------------------------
/// The most bytes that a quote's text may take, leaving room for the date.
pub const QUOTE_LIMIT: usize = 1800;

/// The length of the UTF-8 encoding of `s`, as `str::len` counts it.
pub open spec fn byte_len(s: Seq<char>) -> nat {
    encode_utf8(s).len()
}

/// The length of the UTF-8 encoding of one character.
pub open spec fn char_width(c: char) -> nat {
    if (c as u32) <= 0x7f {
        1
    } else if (c as u32) <= 0x7ff {
        2
    } else if (c as u32) <= 0xffff {
        3
    } else {
        4
    }
}

pub proof fn lemma_byte_len_push(s: Seq<char>, c: char)
    ensures
        byte_len(s.push(c)) == byte_len(s) + char_width(c),
    decreases s.len(),
{
    vstd::utf8::char_is_scalar(c);
    if s.len() == 0 {
        assert(s.push(c) =~= seq![c]);
        assert(seq![c].drop_first() =~= Seq::<char>::empty());
        assert(encode_utf8(Seq::<char>::empty()) =~= Seq::<u8>::empty());
        assert(encode_scalar(c as u32).len() == char_width(c));
    } else {
        assert(s.push(c).drop_first() =~= s.drop_first().push(c));
        lemma_byte_len_push(s.drop_first(), c);
    }
}

pub proof fn lemma_byte_len_concat(a: Seq<char>, b: Seq<char>)
    ensures
        byte_len(a + b) == byte_len(a) + byte_len(b),
    decreases b.len(),
{
    if b.len() == 0 {
        assert(a + b =~= a);
        assert(encode_utf8(b) =~= Seq::<u8>::empty());
    } else {
        lemma_byte_len_concat(a, b.drop_last());
        assert(a + b =~= (a + b.drop_last()).push(b.last()));
        assert(b =~= b.drop_last().push(b.last()));
        lemma_byte_len_push(a + b.drop_last(), b.last());
        lemma_byte_len_push(b.drop_last(), b.last());
    }
}

/// A `. ` starts at `i`.
pub open spec fn sentence_end_at(s: Seq<char>, i: int) -> bool {
    0 <= i && i + 2 <= s.len() && s[i] == '.' && s[i + 1] == ' '
}

proof fn lemma_sentence_end(s: Seq<char>, i: int)
    ensures
        occurs_at(s, ". "@, i) <==> sentence_end_at(s, i),
{
    reveal_strlit(". ");
    if sentence_end_at(s, i) {
        assert(s.subrange(i, i + 2) =~= ". "@);
    }
    if occurs_at(s, ". "@, i) {
        assert(s.subrange(i, i + 2)[0] == s[i]);
        assert(s.subrange(i, i + 2)[1] == s[i + 1]);
    }
}

/// The phrases of `s` from `st` on, with the scan at `i`: each phrase ends just
/// after a `. `, the last one at the end of `s` (as `str::split_inclusive(". ")`).
pub open spec fn phrases_from(s: Seq<char>, st: int, i: int) -> Seq<Seq<char>>
    decreases s.len() - i,
{
    if i >= s.len() {
        if st < s.len() {
            seq![s.subrange(st, s.len() as int)]
        } else {
            seq![]
        }
    } else if sentence_end_at(s, i) {
        seq![s.subrange(st, i + 2)] + phrases_from(s, i + 2, i + 2)
    } else {
        phrases_from(s, st, i + 1)
    }
}

/// Packs phrases into chunks, in order: a phrase joins the current chunk unless
/// the two together pass `QUOTE_LIMIT` bytes; then the current chunk is closed and
/// the phrase starts the next. Gives the closed chunks and the current one.
pub open spec fn pack(ps: Seq<Seq<char>>) -> (Seq<Seq<char>>, Seq<char>)
    decreases ps.len(),
{
    if ps.len() == 0 {
        (seq![], seq![])
    } else {
        let (done, cur) = pack(ps.drop_last());
        let p = ps.last();
        if byte_len(cur) + byte_len(p) > QUOTE_LIMIT {
            (done.push(cur), p)
        } else {
            (done, cur + p)
        }
    }
}

/// The texts of the quotes that a clip's content is shown in.
pub open spec fn content_chunks(s: Seq<char>) -> Seq<Seq<char>> {
    let (done, cur) = pack(phrases_from(s, 0, 0));
    done.push(cur)
}

proof fn lemma_phrases_flatten(s: Seq<char>, st: int, i: int)
    requires
        0 <= st <= i <= s.len(),
    ensures
        phrases_from(s, st, i).flatten() == s.subrange(st, s.len() as int),
    decreases s.len() - i,
{
    broadcast use Seq::lemma_flatten_singleton;

    if i >= s.len() {
        if st >= s.len() {
            assert(phrases_from(s, st, i) =~= Seq::<Seq<char>>::empty());
            assert(s.subrange(st, s.len() as int) =~= Seq::<char>::empty());
        }
    } else if sentence_end_at(s, i) {
        lemma_phrases_flatten(s, i + 2, i + 2);
        vstd::seq_lib::lemma_flatten_concat(
            seq![s.subrange(st, i + 2)],
            phrases_from(s, i + 2, i + 2),
        );
        assert(s.subrange(st, i + 2) + s.subrange(i + 2, s.len() as int) =~= s.subrange(
            st,
            s.len() as int,
        ));
    } else {
        lemma_phrases_flatten(s, st, i + 1);
    }
}

proof fn lemma_pack_flatten(ps: Seq<Seq<char>>)
    ensures
        pack(ps).0.flatten() + pack(ps).1 == ps.flatten(),
    decreases ps.len(),
{
    broadcast use Seq::lemma_flatten_push;

    if ps.len() == 0 {
        assert(Seq::<Seq<char>>::empty().flatten() + Seq::<char>::empty() =~= ps.flatten());
    } else {
        lemma_pack_flatten(ps.drop_last());
        let (done, cur) = pack(ps.drop_last());
        let p = ps.last();
        assert(ps =~= ps.drop_last().push(p));
        assert(done.flatten() + cur + p =~= done.flatten() + (cur + p));
    }
}

/// The quotes of a clip, read in order, give back its content exactly.
pub proof fn lemma_chunks_keep_content(s: Seq<char>)
    ensures
        content_chunks(s).flatten() == s,
{
    broadcast use Seq::lemma_flatten_push;

    lemma_phrases_flatten(s, 0, 0);
    lemma_pack_flatten(phrases_from(s, 0, 0));
    assert(s.subrange(0, s.len() as int) =~= s);
}

pub open spec fn strings_view(v: Seq<String>) -> Seq<Seq<char>> {
    v.map_values(|x: String| x@)
}

proof fn lemma_phrases_skip(s: Seq<char>, st: int, i: int, k: int)
    requires
        0 <= st <= i <= k <= s.len(),
        forall|j: int| i <= j < k ==> !sentence_end_at(s, j),
    ensures
        phrases_from(s, st, i) == phrases_from(s, st, k),
    decreases k - i,
{
    if i < k {
        lemma_phrases_skip(s, st, i + 1, k);
    }
}

pub open spec fn capped(x: nat) -> nat {
    if x > QUOTE_LIMIT {
        (QUOTE_LIMIT + 1) as nat
    } else {
        x
    }
}

/// The bytes of `s[a..b]`, capped just past `QUOTE_LIMIT`.
fn capped_byte_len(s: &[char], a: usize, b: usize) -> (r: usize)
    requires
        a <= b <= s@.len(),
    ensures
        r == capped(byte_len(s@.subrange(a as int, b as int))),
{
    let mut acc: usize = 0;
    let mut k = a;
    assert(s@.subrange(a as int, a as int) =~= Seq::<char>::empty());
    assert(encode_utf8(Seq::<char>::empty()) =~= Seq::<u8>::empty());
    while k < b
        invariant
            a <= k <= b <= s@.len(),
            acc == byte_len(s@.subrange(a as int, k as int)),
            acc <= QUOTE_LIMIT,
        decreases b - k,
    {
        let c = s[k];
        let v = c as u32;
        let w: usize = if v <= 0x7f {
            1
        } else if v <= 0x7ff {
            2
        } else if v <= 0xffff {
            3
        } else {
            4
        };
        proof {
            assert(s@.subrange(a as int, k + 1) =~= s@.subrange(a as int, k as int).push(c));
            lemma_byte_len_push(s@.subrange(a as int, k as int), c);
        }
        acc = acc + w;
        k += 1;
        if acc > QUOTE_LIMIT {
            proof {
                assert(s@.subrange(a as int, b as int) =~= s@.subrange(a as int, k as int)
                    + s@.subrange(k as int, b as int));
                lemma_byte_len_concat(
                    s@.subrange(a as int, k as int),
                    s@.subrange(k as int, b as int),
                );
            }
            return QUOTE_LIMIT + 1;
        }
    }
    acc
}

/// Splits a clip's content into the texts of its quotes.
pub fn content_chunks_exec(s: &[char]) -> (r: Vec<String>)
    ensures
        strings_view(r@) == content_chunks(s@),
{
    let pat = chars_of(". ");
    proof {
        reveal_strlit(". ");
    }
    let n = s.len();
    let mut out: Vec<String> = Vec::new();
    let mut cur_start: usize = 0;
    let mut cur_bytes: usize = 0;
    let mut st: usize = 0;
    let ghost mut seen: Seq<Seq<char>> = seq![];
    assert(s@.subrange(0, 0) =~= Seq::<char>::empty());
    assert(encode_utf8(Seq::<char>::empty()) =~= Seq::<u8>::empty());
    assert(seen + phrases_from(s@, 0, 0) =~= phrases_from(s@, 0, 0));
    while st < n
        invariant
            cur_start <= st <= n == s@.len(),
            pat@ == ". "@,
            phrases_from(s@, 0, 0) == seen + phrases_from(s@, st as int, st as int),
            pack(seen) == (strings_view(out@), s@.subrange(cur_start as int, st as int)),
            cur_bytes == capped(byte_len(s@.subrange(cur_start as int, st as int))),
        decreases n - st,
    {
        let j = find_seq(s, pat.as_slice(), st);
        proof {
            lemma_find_seq_from(s@, ". "@, st as int);
            assert forall|q: int| st <= q < j implies !sentence_end_at(s@, q) by {
                lemma_sentence_end(s@, q);
            }
            lemma_sentence_end(s@, j as int);
            lemma_phrases_skip(s@, st as int, st as int, j as int);
        }
        let e = if j < n {
            j + 2
        } else {
            n
        };
        let ghost p = s@.subrange(st as int, e as int);
        let ghost rest = phrases_from(s@, e as int, e as int);
        proof {
            if j < n {
                assert(phrases_from(s@, st as int, j as int) == seq![p] + rest);
            } else {
                assert(phrases_from(s@, st as int, j as int) == seq![p]);
                assert(rest =~= Seq::<Seq<char>>::empty());
            }
            assert(seen + (seq![p] + rest) =~= seen.push(p) + rest);
        }
        let pb = capped_byte_len(s, st, e);
        let ghost cur = s@.subrange(cur_start as int, st as int);
        proof {
            assert(seen.push(p).drop_last() =~= seen);
            assert(seen.push(p).last() == p);
        }
        if cur_bytes + pb > QUOTE_LIMIT {
            let chunk = string_of(vstd::slice::slice_subrange(s, cur_start, st));
            let ghost before = strings_view(out@);
            out.push(chunk);
            proof {
                assert(strings_view(out@) =~= before.push(cur));
            }
            cur_start = st;
            cur_bytes = pb;
        } else {
            proof {
                assert(s@.subrange(cur_start as int, e as int) =~= cur + p);
                lemma_byte_len_concat(cur, p);
            }
            cur_bytes = cur_bytes + pb;
        }
        proof {
            seen = seen.push(p);
        }
        st = e;
    }
    proof {
        assert(phrases_from(s@, n as int, n as int) =~= Seq::<Seq<char>>::empty());
        assert(seen + Seq::<Seq<char>>::empty() =~= seen);
    }
    let last = string_of(vstd::slice::slice_subrange(s, cur_start, n));
    let ghost done = strings_view(out@);
    out.push(last);
    assert(strings_view(out@) =~= done.push(s@.subrange(cur_start as int, n as int)));
    out
}

// ---------------------------------------------------------------------------
// The page of a book
// ---------------------------------------------------------------------------
/// The quotes of one clip: one per chunk, the last followed by the clip's date.
pub open spec fn quote_blocks(chunks: Seq<Seq<char>>, date: LocalDateTime) -> Seq<BlockModel> {
    Seq::new(
        chunks.len(),
        |i: int|
            BlockModel::Quote(
                chunks[i],
                if i == chunks.len() - 1 {
                    Some(date)
                } else {
                    None
                },
            ),
    )
}

pub open spec fn clip_blocks(c: ClipView) -> Seq<BlockModel> {
    quote_blocks(content_chunks(c.content), c.date)
}

pub open spec fn clips_blocks(cs: Seq<ClipView>) -> Seq<BlockModel>
    decreases cs.len(),
{
    if cs.len() == 0 {
        seq![]
    } else {
        clips_blocks(cs.drop_last()) + clip_blocks(cs.last())
    }
}

/// A book name cut at its first `:`, as such names are mostly long subtitles.
pub open spec fn page_title(name: Seq<char>) -> Seq<char> {
    name.take(find_char_from(name, ':', 0))
}

/// The blocks above the quotes: the full name when the title was cut, the
/// author, and a divider.
pub open spec fn head_blocks(name: Seq<char>, author: Seq<char>) -> Seq<BlockModel> {
    let tail = seq![BlockModel::Callout(author, "\u{270d}\u{fe0f}"@), BlockModel::Divider];
    if find_char_from(name, ':', 0) < name.len() {
        seq![BlockModel::Callout(name, "\u{1f4d5}"@)] + tail
    } else {
        tail
    }
}

pub open spec fn page_blocks(b: BookClipsView) -> Seq<BlockModel> {
    head_blocks(b.book_name, b.author) + clips_blocks(b.clips)
}

proof fn lemma_renders_push(cs: Seq<Child>, bs: Seq<BlockModel>, c: Child, b: BlockModel)
    requires
        renders_all(cs, bs),
        renders(c, b),
    ensures
        renders_all(cs.push(c), bs.push(b)),
{
    assert forall|i: int| 0 <= i < cs.len() + 1 implies renders(
        #[trigger] cs.push(c)[i],
        bs.push(b)[i],
    ) by {
        if i < cs.len() {
            assert(cs.push(c)[i] == cs[i]);
            assert(bs.push(b)[i] == bs[i]);
        }
    }
}

impl BookClips {
    /// The page that shows this book: titled with the book name cut at its first
    /// `:`, under the page `parent_page_id`. Its blocks are a callout with the full
    /// name (only when the name was cut), a callout with the author, a divider, and
    /// each clip's content as quotes of at most `QUOTE_LIMIT` bytes, split after a
    /// `. ` (a single longer phrase stays whole), the last quote of a clip followed
    /// by its date.
    pub fn to_notion_body(&self, parent_page_id: &str) -> (r: NotionPageQuery)
        ensures
            r.parent.page_id@ == parent_page_id@,
            r.icon.emoji@ == "\u{1f4d6}"@,
            r.properties.title@.len() == 1,
            r.properties.title@[0].text.content@ == page_title(self.book_name@),
            renders_all(r.children@, page_blocks(self@)),
    {
        let name = chars_of(self.book_name.as_str());
        let colon = find_char(name.as_slice(), ':', 0);
        proof {
            lemma_find_char_from(name@, ':', 0);
        }
        let mut children: Vec<Child> = Vec::new();
        let ghost mut blocks: Seq<BlockModel> = seq![];
        if colon < name.len() {
            let full = Child::new_callout(self.book_name.clone(), "\u{1f4d5}");
            proof {
                lemma_renders_push(children@, blocks, full, BlockModel::Callout(self.book_name@, "\u{1f4d5}"@));
                blocks = blocks.push(BlockModel::Callout(self.book_name@, "\u{1f4d5}"@));
            }
            children.push(full);
        }
        let by = Child::new_callout(self.author.clone(), "\u{270d}\u{fe0f}");
        proof {
            lemma_renders_push(children@, blocks, by, BlockModel::Callout(self.author@, "\u{270d}\u{fe0f}"@));
            blocks = blocks.push(BlockModel::Callout(self.author@, "\u{270d}\u{fe0f}"@));
        }
        children.push(by);
        let divider = Child::new_divider();
        proof {
            lemma_renders_push(children@, blocks, divider, BlockModel::Divider);
            blocks = blocks.push(BlockModel::Divider);
            assert(blocks =~= head_blocks(self.book_name@, self.author@));
        }
        children.push(divider);
        let ghost head = blocks;
        let ghost cs = clips_view(self.clips@);
        let mut k: usize = 0;
        assert(cs.take(0) =~= Seq::<ClipView>::empty());
        assert(head + clips_blocks(cs.take(0)) =~= head);
        while k < self.clips.len()
            invariant
                k <= self.clips@.len(),
                cs == clips_view(self.clips@),
                renders_all(children@, head + clips_blocks(cs.take(k as int))),
            decreases self.clips@.len() - k,
        {
            let clip = &self.clips[k];
            let content = chars_of(clip.content.as_str());
            let chunks = content_chunks_exec(content.as_slice());
            let ghost before = head + clips_blocks(cs.take(k as int));
            let ghost quotes = quote_blocks(strings_view(chunks@), clip.date);
            let mut q: usize = 0;
            assert(before + quotes.take(0) =~= before);
            while q < chunks.len()
                invariant
                    q <= chunks@.len(),
                    quotes == quote_blocks(strings_view(chunks@), clip.date),
                    renders_all(children@, before + quotes.take(q as int)),
                decreases chunks@.len() - q,
            {
                let date = if q == chunks.len() - 1 {
                    Some(clip.date)
                } else {
                    None
                };
                let quote = Child::new_quote(chunks[q].clone(), date);
                proof {
                    lemma_renders_push(children@, before + quotes.take(q as int), quote, quotes[q as int]);
                    assert((before + quotes.take(q as int)).push(quotes[q as int]) =~= before
                        + quotes.take(q + 1));
                }
                children.push(quote);
                q += 1;
            }
            proof {
                assert(quotes.take(q as int) =~= quotes);
                assert(cs.take(k + 1).drop_last() =~= cs.take(k as int));
                assert(cs.take(k + 1).last() == clip@);
                assert(before + quotes =~= head + clips_blocks(cs.take(k + 1)));
            }
            k += 1;
        }
        assert(cs.take(k as int) =~= cs);
        let title_text = string_of(vstd::slice::slice_subrange(name.as_slice(), 0, colon));
        let mut title: Vec<Title> = Vec::new();
        title.push(Title { text: Text { content: title_text } });
        NotionPageQuery {
            parent: Parent { page_id: String::from_str(parent_page_id) },
            icon: Icon { emoji: String::from_str("\u{1f4d6}") },
            properties: Properties { title },
            children,
        }
    }
}

} // verus!
