//! Writing overrides out as an aligned block, and putting that block into
//! the text of an override file.

use vstd::prelude::*;
use vstd::string::StringExecFns;
use crate::layout::{
    byte_len, byte_length, lemma_byte_len_concat, lemma_byte_len_plain, lemma_padded_width, pad,
    padding,
};
use crate::model::{Attribute, AttributeView, EntryView, OverrideEntry};
use crate::ordered::{as_map, lemma_sorted_listing, sorted_by_key, sorted_listing};
use crate::overrides::OverrideSet;
use crate::text::{
    append_chars, chars_of, concat_all, join, join_with, lemma_concat_all_split,
    lemma_line_pieces_concat, line_of, line_pieces, occurs_at, pieces, starts_with, string_of,
    texts, views,
};

verus! {

/// The text of an attribute that is a string.
pub open spec fn text_of(v: Option<AttributeView>) -> Option<Seq<char>> {
    match v {
        Some(AttributeView::Text(s)) => Some(s),
        _ => None,
    }
}

/// A value as it is written out.
pub open spec fn shown_value(v: AttributeView) -> Seq<char> {
    match v {
        AttributeView::Text(s) => s,
        AttributeView::Other { shown, decimal } => shown,
    }
}

/// Whether the entry names a source that can be written out: a path or a
/// repository address that is a string.
pub open spec fn has_source(e: EntryView) -> bool {
    text_of(e.path) is Some || text_of(e.git) is Some
}

/// The first part of an entry's attributes, which is filled up to a common
/// width: the path, or the repository address, followed by a comma where a
/// version or a revision comes behind it.
pub open spec fn head_fragment(e: EntryView) -> Seq<char> {
    if text_of(e.path) is Some {
        "{ path: \""@ + text_of(e.path)->0 + "\" "@
    } else if text_of(e.git) is Some {
        if e.version is Some || text_of(e.rev) is Some {
            "{ git: \""@ + text_of(e.git)->0 + "\","@
        } else {
            "{ git: \""@ + text_of(e.git)->0
        }
    } else {
        Seq::empty()
    }
}

/// The width in bytes that an entry asks of the column of the first parts.
/// It is that of `head_fragment`, but for a repository whose revision is no
/// string: there the comma is counted though none is written.
pub open spec fn measured_width(e: EntryView) -> nat {
    if text_of(e.path) is Some {
        byte_len("{ path: \""@ + text_of(e.path)->0 + "\" "@)
    } else if text_of(e.git) is Some {
        if e.version is Some || e.rev is Some {
            byte_len("{ git: \""@ + text_of(e.git)->0 + "\","@)
        } else {
            byte_len("{ git: \""@ + text_of(e.git)->0)
        }
    } else {
        0
    }
}

/// What follows the first part of an entry's attributes: the version, or
/// else the revision, and the closing brace.
pub open spec fn tail_fragment(e: EntryView) -> Seq<char> {
    if text_of(e.path) is Some {
        "}"@
    } else if e.version is Some {
        " version: "@ + shown_value(e.version->0) + " }"@
    } else if text_of(e.rev) is Some {
        " rev: \""@ + text_of(e.rev)->0 + "\" }"@
    } else {
        " }"@
    }
}

/// The start of a line: two spaces, the name, a colon, the spaces that
/// fill the name up to `max_name_len` bytes, and one more space.
pub open spec fn line_start(name: Seq<char>, max_name_len: int) -> Seq<char> {
    "  "@ + name + ":"@ + padding(max_name_len, byte_len(name) as int) + " "@
}

/// The line of one override: its start, the first part of the attributes
/// filled up to `max_url_len` bytes, and the rest. An entry without a
/// source that can be written out gets empty braces.
pub open spec fn dependency_line(
    name: Seq<char>,
    e: EntryView,
    max_name_len: int,
    max_url_len: int,
) -> Seq<char> {
    if has_source(e) {
        line_start(name, max_name_len) + head_fragment(e) + padding(
            max_url_len,
            byte_len(head_fragment(e)) as int,
        ) + tail_fragment(e)
    } else {
        line_start(name, max_name_len) + "{}"@
    }
}

/// The string of an attribute that is one.
pub fn text_value(v: &Option<Attribute>) -> (text: Option<&String>)
    ensures
        match text {
            Some(s) => text_of(crate::model::optional_value(*v)) == Some(s@),
            None => text_of(crate::model::optional_value(*v)) is None,
        },
{
    match v {
        Some(Attribute::Text(s)) => Some(s),
        _ => None,
    }
}

/// The first part of an entry's attributes.
pub fn head_of(entry: &OverrideEntry) -> (head: String)
    ensures
        head@ == head_fragment(entry@),
{
    if let Some(path) = text_value(&entry.path) {
        let mut head = String::from_str("{ path: \"");
        head.append(path.as_str());
        head.append("\" ");
        head
    } else if let Some(url) = text_value(&entry.git) {
        let mut head = String::from_str("{ git: \"");
        head.append(url.as_str());
        if entry.version.is_some() || text_value(&entry.rev).is_some() {
            head.append("\",");
        }
        head
    } else {
        String::new()
    }
}

/// What follows the first part of an entry's attributes.
pub fn tail_of(entry: &OverrideEntry) -> (tail: String)
    ensures
        tail@ == tail_fragment(entry@),
{
    if text_value(&entry.path).is_some() {
        String::from_str("}")
    } else if let Some(version) = &entry.version {
        let mut tail = String::from_str(" version: ");
        match version {
            Attribute::Text(s) => tail.append(s.as_str()),
            Attribute::Other { shown, decimal } => tail.append(shown.as_str()),
        }
        tail.append(" }");
        tail
    } else if let Some(rev) = text_value(&entry.rev) {
        let mut tail = String::from_str(" rev: \"");
        tail.append(rev.as_str());
        tail.append("\" }");
        tail
    } else {
        String::from_str(" }")
    }
}

/// Writes out the line of one override, its columns filled up to the given
/// widths.
pub fn format_dependency_line(
    name: &str,
    dep_info: &OverrideEntry,
    max_name_len: usize,
    max_url_len: usize,
) -> (line: String)
    ensures
        line@ == dependency_line(name@, dep_info@, max_name_len as int, max_url_len as int),
{
    let mut line = String::from_str("  ");
    line.append(name);
    line.append(":");
    pad(&mut line, max_name_len, byte_length(name));
    line.append(" ");
    if text_value(&dep_info.path).is_some() || text_value(&dep_info.git).is_some() {
        let head = head_of(dep_info);
        let tail = tail_of(dep_info);
        line.append(head.as_str());
        pad(&mut line, max_url_len, byte_length(head.as_str()));
        line.append(tail.as_str());
    } else {
        line.append("{}");
    }
    line
}

/// The greatest width in bytes of a name of `l`.
pub open spec fn widest_name(l: Seq<EntryView>) -> nat
    decreases l.len(),
{
    if l.len() == 0 {
        0
    } else {
        let rest = widest_name(l.drop_last());
        let here = byte_len(l.last().name);
        if here > rest {
            here
        } else {
            rest
        }
    }
}

/// The greatest width in bytes that an entry of `l` asks of the column of
/// the first parts.
pub open spec fn widest_head(l: Seq<EntryView>) -> nat
    decreases l.len(),
{
    if l.len() == 0 {
        0
    } else {
        let rest = widest_head(l.drop_last());
        let here = measured_width(l.last());
        if here > rest {
            here
        } else {
            rest
        }
    }
}

/// The lines of the entries of `l`, in their order, all filled up to the
/// widths of the widest among them.
pub open spec fn override_lines(l: Seq<EntryView>) -> Seq<Seq<char>> {
    Seq::new(
        l.len(),
        |i: int| dependency_line(l[i].name, l[i], widest_name(l) as int, widest_head(l) as int),
    )
}

/// The width in bytes that an entry asks of the column of the first parts.
pub fn measure(entry: &OverrideEntry) -> (width: usize)
    ensures
        width == measured_width(entry@),
{
    if let Some(path) = text_value(&entry.path) {
        let mut head = String::from_str("{ path: \"");
        head.append(path.as_str());
        head.append("\" ");
        byte_length(head.as_str())
    } else if let Some(url) = text_value(&entry.git) {
        let mut head = String::from_str("{ git: \"");
        head.append(url.as_str());
        if entry.version.is_some() || entry.rev.is_some() {
            head.append("\",");
        }
        byte_length(head.as_str())
    } else {
        0
    }
}

/// Writes out the lines of all overrides of the set, in the order of their
/// names and in aligned columns.
pub fn generate_overrides_lines(all_overrides: &OverrideSet) -> (written: Vec<String>)
    ensures
        texts(written@) == override_lines(all_overrides.listing()),
{
    let ghost l = all_overrides.listing();
    let count = all_overrides.len();
    let mut max_name_len: usize = 0;
    let mut max_url_len: usize = 0;
    let mut i: usize = 0;
    assert(l.take(0) =~= Seq::<EntryView>::empty());
    while i < count
        invariant
            i <= count,
            count == l.len(),
            l == all_overrides.listing(),
            max_name_len == widest_name(l.take(i as int)),
            max_url_len == widest_head(l.take(i as int)),
        decreases count - i,
    {
        let entry = all_overrides.entry(i);
        let name_len = byte_length(entry.name.as_str());
        let url_len = measure(entry);
        proof {
            let next = l.take(i + 1);
            assert(next.drop_last() =~= l.take(i as int));
            assert(next.last() == l[i as int]);
        }
        if name_len > max_name_len {
            max_name_len = name_len;
        }
        if url_len > max_url_len {
            max_url_len = url_len;
        }
        i += 1;
    }
    assert(l.take(count as int) =~= l);
    let mut written: Vec<String> = Vec::new();
    let mut j: usize = 0;
    while j < count
        invariant
            j <= count,
            count == l.len(),
            l == all_overrides.listing(),
            max_name_len == widest_name(l),
            max_url_len == widest_head(l),
            written@.len() == j,
            forall|k: int| 0 <= k < j ==> (#[trigger] written@[k])@ == override_lines(l)[k],
        decreases count - j,
    {
        let entry = all_overrides.entry(j);
        written.push(
            format_dependency_line(entry.name.as_str(), entry, max_name_len, max_url_len),
        );
        j += 1;
    }
    assert(texts(written@) =~= override_lines(l));
    written
}

/// No name and no first part is wider than the widest.
pub proof fn lemma_widest(l: Seq<EntryView>, i: int)
    requires
        0 <= i < l.len(),
    ensures
        byte_len(l[i].name) <= widest_name(l),
        measured_width(l[i]) <= widest_head(l),
    decreases l.len(),
{
    if i < l.len() - 1 {
        lemma_widest(l.drop_last(), i);
    }
}

/// The lines of a block are aligned. In every line the attributes begin at
/// the same byte, four behind the width of the widest name; and in every
/// line of an entry with a source, what follows the first part of the
/// attributes begins at the same byte, behind the width of the widest first
/// part. (An entry whose revision is no string is left out: its first part
/// is measured wider than it is written.)
pub proof fn lemma_lines_are_aligned(l: Seq<EntryView>, i: int)
    requires
        0 <= i < l.len(),
    ensures
        byte_len(line_start(l[i].name, widest_name(l) as int)) == widest_name(l) + 4,
        has_source(l[i]) && measured_width(l[i]) == byte_len(head_fragment(l[i])) ==> byte_len(
            line_start(l[i].name, widest_name(l) as int) + head_fragment(l[i]) + padding(
                widest_head(l) as int,
                byte_len(head_fragment(l[i])) as int,
            ),
        ) == widest_name(l) + 4 + widest_head(l),
{
    let name = l[i].name;
    let width = widest_name(l) as int;
    let start = line_start(name, width);
    lemma_widest(l, i);
    reveal_strlit("  ");
    reveal_strlit(":");
    reveal_strlit(" ");
    lemma_byte_len_plain("  "@);
    lemma_byte_len_plain(":"@);
    lemma_byte_len_plain(" "@);
    lemma_padded_width(name, width);
    lemma_byte_len_concat("  "@, name);
    lemma_byte_len_concat("  "@ + name, ":"@);
    lemma_byte_len_concat("  "@ + name + ":"@, padding(width, byte_len(name) as int));
    lemma_byte_len_concat("  "@ + name + ":"@ + padding(width, byte_len(name) as int), " "@);
    lemma_byte_len_concat(name, padding(width, byte_len(name) as int));
    if has_source(l[i]) && measured_width(l[i]) == byte_len(head_fragment(l[i])) {
        let head = head_fragment(l[i]);
        let fill = padding(widest_head(l) as int, byte_len(head) as int);
        lemma_padded_width(head, widest_head(l) as int);
        lemma_byte_len_concat(head, fill);
        lemma_byte_len_concat(start, head);
        lemma_byte_len_concat(start + head, fill);
    }
}

/// Whether a piece, a line with its line end, opens the block of
/// overrides.
pub open spec fn is_header(piece: Seq<char>) -> bool {
    occurs_at(piece, "overrides:"@, 0)
}

/// Whether a piece belongs to the block that was opened before it: its
/// line is empty, or begins with a space or a tab.
pub open spec fn continues_block(piece: Seq<char>) -> bool {
    line_of(piece).len() == 0 || piece[0] == ' ' || piece[0] == '\t'
}

/// Whether one of the pieces opens a block of overrides.
pub open spec fn has_header(all: Seq<Seq<char>>) -> bool {
    exists|k: int| 0 <= k < all.len() && is_header(#[trigger] all[k])
}

/// What a piece of a block leaves behind: a line feed where it is the last
/// piece of its block and ends in one, nothing else. So the block that is
/// written out ends as the block that it replaces did.
pub open spec fn block_end(piece: Seq<char>, rest: Seq<Seq<char>>) -> Seq<char> {
    if (rest.len() == 0 || !continues_block(rest[0])) && piece.len() > 0 && piece.last()
        == '\n' {
        seq!['\n']
    } else {
        Seq::empty()
    }
}

/// The text of the pieces with each block of overrides replaced by
/// `block`: in place of a piece that opens a block stands `block`, the
/// pieces behind it that belong to the block are dropped, and every other
/// piece stands as it is, line end and all. `inside` says whether a block
/// was opened before the first piece and is not closed yet.
pub open spec fn spliced(all: Seq<Seq<char>>, block: Seq<char>, inside: bool) -> Seq<char>
    decreases all.len(),
{
    if all.len() == 0 {
        Seq::empty()
    } else {
        let piece = all[0];
        let rest = all.drop_first();
        if is_header(piece) {
            block + block_end(piece, rest) + spliced(rest, block, true)
        } else if inside && continues_block(piece) {
            block_end(piece, rest) + spliced(rest, block, true)
        } else {
            piece + spliced(rest, block, false)
        }
    }
}

/// The block of overrides as it is written out: the line that opens it,
/// and the lines of the entries, with a line feed between each two.
pub open spec fn overrides_block(l: Seq<EntryView>) -> Seq<char> {
    "overrides:\n"@ + join_with(override_lines(l), "\n"@)
}

/// What parts an appended block from the text before it: an empty line,
/// behind the line feed that ends the last line of the text where that has
/// none.
pub open spec fn gap_behind(text: Seq<char>) -> Seq<char> {
    if text.len() > 0 && text.last() != '\n' {
        seq!['\n', '\n']
    } else {
        seq!['\n']
    }
}

/// The text of an override file brought up to date with the overrides `l`:
/// the text itself where `l` is empty; else the text with each block of
/// overrides replaced by the one written out for `l`, or, where it has no
/// such block, followed by an empty line and that block, which ends with
/// its last line. Every character outside the blocks stays as it is.
pub open spec fn updated_text(text: Seq<char>, l: Seq<EntryView>) -> Seq<char> {
    if l.len() == 0 {
        text
    } else {
        let all = line_pieces(text);
        if has_header(all) {
            spliced(all, overrides_block(l), false)
        } else {
            text + gap_behind(text) + overrides_block(l)
        }
    }
}

/// Whether a piece belongs to the block that was opened before it.
fn continues(piece: &Vec<char>) -> (goes_on: bool)
    ensures
        goes_on == continues_block(piece@),
{
    let n = piece.len();
    if n == 0 {
        return true;
    }
    if piece[0] == ' ' || piece[0] == '\t' {
        return true;
    }
    proof {
        if piece@.last() == '\n' {
            let inner = piece@.drop_last();
            if n == 2 {
                assert(inner[0] == piece@[0]);
                assert(inner.last() == piece@[0]);
                assert(inner.drop_last().len() == 0);
            }
        }
    }
    (n == 1 && piece[0] == '\n') || (n == 2 && piece[0] == '\r' && piece[1] == '\n')
}

/// Brings the text of an override file up to date: the declared overrides
/// and the new ones, which take the place of declared ones of the same
/// name, are written out in the order of their names in place of the
/// block of overrides, or behind the text where it has no such block.
/// Every character outside the block stays as it is. Where there is no
/// override at all, the text comes back unchanged.
pub fn update_bender_yml_overrides(
    bender_yml_text: &str,
    existing_overrides: &OverrideSet,
    new_overrides: &OverrideSet,
) -> (updated: String)
    ensures
        updated@ == updated_text(
            bender_yml_text@,
            sorted_listing(existing_overrides@.union_prefer_right(new_overrides@)),
        ),
{
    let all_overrides = existing_overrides.merge(new_overrides);
    proof {
        lemma_sorted_listing(all_overrides.listing());
    }
    let override_lines = generate_overrides_lines(&all_overrides);
    let text = chars_of(bender_yml_text);
    if override_lines.len() == 0 {
        return string_of(&text);
    }
    let mut written = String::from_str("overrides:\n");
    written.append(join(&override_lines, "\n").as_str());
    let block = chars_of(written.as_str());
    let header = chars_of("overrides:");
    let all = pieces(&text);
    let ghost every = views(all@);
    let mut out: Vec<char> = Vec::new();
    let mut inside = false;
    let mut found = false;
    let mut i: usize = 0;
    assert(out@ + spliced(every.skip(0), block@, false) =~= spliced(every, block@, false)) by {
        assert(every.skip(0) =~= every);
    }
    while i < all.len()
        invariant
            i <= all.len(),
            every == views(all@),
            header@ == "overrides:"@,
            spliced(every, block@, false) == out@ + spliced(every.skip(i as int), block@, inside),
            found <==> has_header(every.take(i as int)),
        decreases all.len() - i,
    {
        let piece = &all[i];
        let ghost rest = every.skip(i + 1);
        let ghost before = out@;
        proof {
            let here = every.skip(i as int);
            assert(here[0] == piece@);
            assert(here.drop_first() =~= rest);
            if i + 1 < all.len() {
                assert(rest[0] == all@[i + 1]@);
            }
            let seen = every.take(i as int);
            let next = every.take(i + 1);
            assert(forall|k: int| 0 <= k < seen.len() ==> seen[k] == next[k]);
            assert(next[i as int] == piece@);
            if has_header(seen) {
                let k = choose|k: int| 0 <= k < seen.len() && is_header(#[trigger] seen[k]);
                assert(is_header(next[k]));
            }
            if has_header(next) && !is_header(piece@) {
                let k = choose|k: int| 0 <= k < next.len() && is_header(#[trigger] next[k]);
                assert(is_header(seen[k]));
            }
        }
        let closes = i + 1 == all.len() || !continues(&all[i + 1]);
        let ends = closes && piece.len() > 0 && piece[piece.len() - 1] == '\n';
        if starts_with(piece, &header) {
            append_chars(&mut out, &block);
            if ends {
                out.push('\n');
            }
            assert(out@ =~= before + (block@ + block_end(piece@, rest)));
            inside = true;
            found = true;
        } else if inside && continues(piece) {
            if ends {
                out.push('\n');
            }
            assert(out@ =~= before + block_end(piece@, rest));
        } else {
            append_chars(&mut out, piece);
            inside = false;
        }
        i += 1;
        assert(spliced(every, block@, false) =~= out@ + spliced(
            every.skip(i as int),
            block@,
            inside,
        ));
    }
    assert(every.take(i as int) =~= every);
    assert(out@ + Seq::<char>::empty() =~= out@);
    if !found {
        let mut appended = text;
        let unfinished = appended.len() > 0 && appended[appended.len() - 1] != '\n';
        if unfinished {
            appended.push('\n');
        }
        appended.push('\n');
        append_chars(&mut appended, &block);
        assert(appended@ =~= bender_yml_text@ + gap_behind(bender_yml_text@) + block@);
        return string_of(&appended);
    }
    string_of(&out)
}

/// Pieces of which none opens a block stay as they are.
pub proof fn lemma_splice_plain(all: Seq<Seq<char>>, block: Seq<char>)
    requires
        !has_header(all),
    ensures
        spliced(all, block, false) == concat_all(all),
    decreases all.len(),
{
    if all.len() > 0 {
        let rest = all.drop_first();
        assert(!is_header(all[0]));
        assert(!has_header(rest)) by {
            if has_header(rest) {
                let k = choose|k: int| 0 <= k < rest.len() && is_header(#[trigger] rest[k]);
                assert(is_header(all[k + 1]));
            }
        }
        lemma_splice_plain(rest, block);
    }
}

/// Pieces of which none opens a block, put before other pieces, stay as
/// they are, and the others are spliced as they would be alone.
pub proof fn lemma_splice_before(
    before: Seq<Seq<char>>,
    rest: Seq<Seq<char>>,
    block: Seq<char>,
)
    requires
        !has_header(before),
    ensures
        spliced(before + rest, block, false) == concat_all(before) + spliced(rest, block, false),
    decreases before.len(),
{
    if before.len() == 0 {
        assert(before + rest =~= rest);
        assert(concat_all(before) + spliced(rest, block, false) =~= spliced(rest, block, false));
    } else {
        let tail = before.drop_first();
        assert(!is_header(before[0]));
        assert(!has_header(tail)) by {
            if has_header(tail) {
                let k = choose|k: int| 0 <= k < tail.len() && is_header(#[trigger] tail[k]);
                assert(is_header(before[k + 1]));
            }
        }
        lemma_splice_before(tail, rest, block);
        assert((before + rest).drop_first() =~= tail + rest);
        assert((before + rest)[0] == before[0]);
        assert(before[0] + (concat_all(tail) + spliced(rest, block, false)) =~= concat_all(before)
            + spliced(rest, block, false));
    }
}

/// The line feed that a block ends in: that of its last piece, where that
/// has one. `opening` is the piece that opens the block and `body` are the
/// pieces that belong to it.
pub open spec fn end_of_block(opening: Seq<char>, body: Seq<Seq<char>>) -> Seq<char> {
    let last = if body.len() == 0 {
        opening
    } else {
        body.last()
    };
    if last.len() > 0 && last.last() == '\n' {
        seq!['\n']
    } else {
        Seq::empty()
    }
}

/// A piece that begins with a space or a tab or holds an empty line does
/// not open a block.
pub proof fn lemma_continuing_is_no_header(piece: Seq<char>)
    requires
        continues_block(piece),
    ensures
        !is_header(piece),
{
    reveal_strlit("overrides:");
    if is_header(piece) {
        let sub = piece.subrange(0, 10);
        assert(sub[0] == piece[0]);
        assert("overrides:"@[0] == 'o');
        assert(sub[9] == piece[9]);
        assert("overrides:"@[9] == ':');
        if piece.last() == '\n' {
            let inner = piece.drop_last();
            assert(inner[0] == piece[0]);
            if inner.last() == '\r' {
                assert(inner.drop_last()[0] == piece[0]);
            }
        }
    }
}

/// Behind the piece that opens a block, the pieces that belong to the
/// block are dropped, the last piece of the block leaves its line feed,
/// and the pieces behind the block stay as they are, where the first of
/// them closes the block and none opens another.
pub proof fn lemma_splice_inside(
    piece: Seq<char>,
    body: Seq<Seq<char>>,
    after: Seq<Seq<char>>,
    block: Seq<char>,
)
    requires
        forall|k: int| 0 <= k < body.len() ==> continues_block(#[trigger] body[k]),
        after.len() > 0 ==> !continues_block(after[0]),
        !has_header(after),
    ensures
        block_end(piece, body + after) + spliced(body + after, block, true) == end_of_block(
            piece,
            body,
        ) + concat_all(after),
    decreases body.len(),
{
    if body.len() == 0 {
        assert(body + after =~= after);
        if after.len() == 0 {
            assert(end_of_block(piece, body) + concat_all(after) =~= end_of_block(piece, body));
            assert(block_end(piece, after) + spliced(after, block, true) =~= block_end(
                piece,
                after,
            ));
        } else {
            assert(!is_header(after[0]));
            let rest = after.drop_first();
            assert(!has_header(rest)) by {
                if has_header(rest) {
                    let k = choose|k: int| 0 <= k < rest.len() && is_header(#[trigger] rest[k]);
                    assert(is_header(after[k + 1]));
                }
            }
            lemma_splice_plain(rest, block);
        }
    } else {
        let tail = body.drop_first();
        assert(continues_block(body[0]));
        lemma_continuing_is_no_header(body[0]);
        assert forall|k: int| 0 <= k < tail.len() implies continues_block(#[trigger] tail[k]) by {
            assert(tail[k] == body[k + 1]);
        }
        lemma_splice_inside(body[0], tail, after, block);
        assert((body + after).drop_first() =~= tail + after);
        assert((body + after)[0] == body[0]);
        assert(block_end(piece, body + after) =~= Seq::<char>::empty());
        assert(end_of_block(piece, body) == end_of_block(body[0], tail)) by {
            if tail.len() > 0 {
                assert(tail.last() == body.last());
            }
        }
        assert(block_end(piece, body + after) + spliced(body + after, block, true)
            =~= block_end(body[0], tail + after) + spliced(tail + after, block, true));
    }
}

/// Pieces put one behind the other: those before a block, the piece that
/// opens it, those that belong to it and those behind it.
pub proof fn lemma_concat_of_parts(
    before: Seq<Seq<char>>,
    header: Seq<char>,
    body: Seq<Seq<char>>,
    after: Seq<Seq<char>>,
)
    ensures
        concat_all(before + seq![header] + body + after) == concat_all(before) + header
            + concat_all(body) + concat_all(after),
{
    let rest = seq![header] + (body + after);
    assert(before + seq![header] + body + after =~= before + rest);
    lemma_concat_all_split(before, rest);
    lemma_concat_all_split(body, after);
    assert(rest.drop_first() =~= body + after);
    assert(rest[0] == header);
    assert(concat_all(rest) == header + concat_all(body + after));
    assert(concat_all(before) + (header + (concat_all(body) + concat_all(after)))
        =~= concat_all(before) + header + concat_all(body) + concat_all(after));
}

/// A block in a text is replaced where it stands: the pieces before it
/// stay, the block that is written out takes the place of the old one and
/// ends as that did, and the pieces behind it stay.
pub proof fn lemma_splice_of_parts(
    before: Seq<Seq<char>>,
    header: Seq<char>,
    body: Seq<Seq<char>>,
    after: Seq<Seq<char>>,
    block: Seq<char>,
)
    requires
        !has_header(before),
        is_header(header),
        forall|k: int| 0 <= k < body.len() ==> continues_block(#[trigger] body[k]),
        after.len() > 0 ==> !continues_block(after[0]),
        !has_header(after),
    ensures
        has_header(before + seq![header] + body + after),
        spliced(before + seq![header] + body + after, block, false) == concat_all(before) + block
            + end_of_block(header, body) + concat_all(after),
{
    let all = before + seq![header] + body + after;
    let rest = seq![header] + (body + after);
    assert(all =~= before + rest);
    assert(has_header(all)) by {
        assert(all[before.len() as int] == header);
    }
    lemma_splice_before(before, rest, block);
    assert(rest.drop_first() =~= body + after);
    assert(rest[0] == header);
    lemma_splice_inside(header, body, after, block);
    let tail = block_end(header, body + after) + spliced(body + after, block, true);
    assert(spliced(rest, block, false) =~= block + tail);
    assert(concat_all(before) + (block + (end_of_block(header, body) + concat_all(after)))
        =~= concat_all(before) + block + end_of_block(header, body) + concat_all(after));
}

/// The round trip of the formatter. Where nothing new is added to the
/// declared overrides, the block that is written out holds one line for
/// each declared entry, in the order of the names and filled up to the
/// widths of the widest among them; it stands in the place of the old
/// block and ends as that did, and every character before and behind that
/// block stays as it is.
pub proof fn lemma_update_without_delta(
    text: Seq<char>,
    declared: Seq<EntryView>,
    before: Seq<Seq<char>>,
    header: Seq<char>,
    body: Seq<Seq<char>>,
    after: Seq<Seq<char>>,
)
    requires
        sorted_by_key(declared),
        declared.len() > 0,
        line_pieces(text) == before + seq![header] + body + after,
        !has_header(before),
        is_header(header),
        forall|k: int| 0 <= k < body.len() ==> continues_block(#[trigger] body[k]),
        after.len() > 0 ==> !continues_block(after[0]),
        !has_header(after),
    ensures
        sorted_listing(as_map(declared).union_prefer_right(Map::empty())) == declared,
        text == concat_all(before) + header + concat_all(body) + concat_all(after),
        updated_text(text, declared) == concat_all(before) + overrides_block(declared)
            + end_of_block(header, body) + concat_all(after),
        override_lines(declared).len() == declared.len(),
        forall|k: int|
            0 <= k < declared.len() ==> #[trigger] override_lines(declared)[k] == dependency_line(
                declared[k].name,
                declared[k],
                widest_name(declared) as int,
                widest_head(declared) as int,
            ),
{
    assert(sorted_listing(as_map(declared).union_prefer_right(Map::empty())) == declared) by {
        assert(as_map(declared).union_prefer_right(Map::empty()) =~= as_map(declared));
        lemma_sorted_listing(declared);
    }
    lemma_line_pieces_concat(text);
    lemma_concat_of_parts(before, header, body, after);
    lemma_splice_of_parts(before, header, body, after, overrides_block(declared));
}

/// A text whose block of overrides is already as it would be written out
/// comes back unchanged: where nothing new is added to the declared
/// overrides and the pieces of the block are the block written out for
/// them, with or without a line feed at its end, the text that is brought
/// up to date is the text.
pub proof fn lemma_update_of_rendered(
    text: Seq<char>,
    declared: Seq<EntryView>,
    before: Seq<Seq<char>>,
    header: Seq<char>,
    body: Seq<Seq<char>>,
    after: Seq<Seq<char>>,
)
    requires
        sorted_by_key(declared),
        declared.len() > 0,
        line_pieces(text) == before + seq![header] + body + after,
        !has_header(before),
        is_header(header),
        forall|k: int| 0 <= k < body.len() ==> continues_block(#[trigger] body[k]),
        after.len() > 0 ==> !continues_block(after[0]),
        !has_header(after),
        header + concat_all(body) == overrides_block(declared) + end_of_block(header, body),
    ensures
        updated_text(text, declared) == text,
{
    lemma_update_without_delta(text, declared, before, header, body, after);
    assert(concat_all(before) + (header + concat_all(body)) + concat_all(after) =~= concat_all(
        before,
    ) + header + concat_all(body) + concat_all(after));
    assert(concat_all(before) + (overrides_block(declared) + end_of_block(header, body))
        + concat_all(after) =~= concat_all(before) + overrides_block(declared) + end_of_block(
        header,
        body,
    ) + concat_all(after));
}

/// Where the text has no block of overrides, all of it stays, and the
/// block that is written out follows it behind one empty line and ends the
/// result with its last line.
pub proof fn lemma_update_appends(text: Seq<char>, l: Seq<EntryView>)
    requires
        l.len() > 0,
        !has_header(line_pieces(text)),
    ensures
        updated_text(text, l) == text + gap_behind(text) + overrides_block(l),
{
}

/// Where there is no override at all, the text stays as it is.
pub proof fn lemma_update_of_nothing(text: Seq<char>)
    ensures
        updated_text(text, Seq::empty()) == text,
{
}

} // verus!
