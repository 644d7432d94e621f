//! Positions, ranges and text edits, and the algorithm that applies a
//! server's formatting edits to a document given as lines.
use vstd::prelude::*;

verus! {

/// A position in a document: zero-based line and character.
#[derive(Clone, Copy, Debug, PartialEq, Eq, Structural)]
pub struct Position {
    pub line: u32,
    pub character: u32,
}

/// A half-open range between two positions.
#[derive(Clone, Copy, Debug, PartialEq, Eq, Structural)]
pub struct Range {
    pub start: Position,
    pub end: Position,
}

/// Replace the text of `range` by `new_text`.
#[derive(Debug)]
pub struct TextEdit {
    pub range: Range,
    pub new_text: String,
}

/// What an edit means: its range and its replacement characters.
pub struct EditModel {
    pub range: Range,
    pub text: Seq<char>,
}

impl View for TextEdit {
    type V = EditModel;

    open spec fn view(&self) -> EditModel {
        EditModel { range: self.range, text: self.new_text@ }
    }
}

impl Position {
    pub fn new(line: u32, character: u32) -> (r: Position)
        ensures
            r.line == line,
            r.character == character,
    {
        Position { line, character }
    }
}

impl Range {
    pub fn new(start: Position, end: Position) -> (r: Range)
        ensures
            r.start == start,
            r.end == end,
    {
        Range { start, end }
    }
}

impl TextEdit {
    pub fn new(range: Range, new_text: String) -> (r: TextEdit)
        ensures
            r.range == range,
            r.new_text@ == new_text@,
    {
        TextEdit { range, new_text }
    }

    /// A copy of this edit.
    pub fn duplicate(&self) -> (r: TextEdit)
        ensures
            r@ == self@,
    {
        TextEdit { range: self.range, new_text: self.new_text.clone() }
    }
}

/// The characters of each line.
pub open spec fn lines_view(lines: Seq<String>) -> Seq<Seq<char>> {
    lines.map_values(|l: String| l@)
}

/// The lines joined with `'\n'` between each two.
pub open spec fn joined(lines: Seq<Seq<char>>) -> Seq<char>
    decreases lines.len(),
{
    if lines.len() == 0 {
        Seq::empty()
    } else if lines.len() == 1 {
        lines[0]
    } else {
        joined(lines.drop_last()) + seq!['\n'] + lines.last()
    }
}

/// The number of characters of the lines before `line`, one separator
/// counted after each of them.
pub open spec fn chars_before_line(lines: Seq<Seq<char>>, line: int) -> int
    decreases line,
{
    if line <= 0 {
        0
    } else {
        chars_before_line(lines, line - 1) + lines[line - 1].len() + 1
    }
}

/// The offset of a position in the joined document.
pub open spec fn offset_of(lines: Seq<Seq<char>>, p: Position) -> int {
    chars_before_line(lines, p.line as int) + p.character
}

/// Whether `a` comes before `b` in the order of (line, character).
pub open spec fn pos_lt(a: Position, b: Position) -> bool {
    a.line < b.line || (a.line == b.line && a.character < b.character)
}

pub open spec fn pos_le(a: Position, b: Position) -> bool {
    !pos_lt(b, a)
}

/// `e` inserted into `s` after every element whose start is not after its own.
pub open spec fn insert_by_start(s: Seq<EditModel>, e: EditModel) -> Seq<EditModel>
    decreases s.len(),
{
    if s.len() == 0 {
        seq![e]
    } else if pos_le(s.last().range.start, e.range.start) {
        s.push(e)
    } else {
        insert_by_start(s.drop_last(), e).push(s.last())
    }
}

/// The edits sorted by start position, stably.
pub open spec fn sorted_by_start(s: Seq<EditModel>) -> Seq<EditModel>
    decreases s.len(),
{
    if s.len() == 0 {
        s
    } else {
        insert_by_start(sorted_by_start(s.drop_last()), s.last())
    }
}

/// Applies `s[0..i]` from the last to the first to `text`; an edit applies
/// when its end lies at or before where the previous applied edit started
/// (`last`), and is skipped otherwise.
pub open spec fn apply_from(
    lines: Seq<Seq<char>>,
    text: Seq<char>,
    s: Seq<EditModel>,
    i: int,
    last: int,
) -> Seq<char>
    decreases i,
{
    if i <= 0 {
        text
    } else {
        let e = s[i - 1];
        let st = offset_of(lines, e.range.start);
        let en = offset_of(lines, e.range.end);
        if en <= last {
            apply_from(
                lines,
                text.subrange(0, st) + e.text + text.subrange(en, text.len() as int),
                s,
                i - 1,
                st,
            )
        } else {
            apply_from(lines, text, s, i - 1, last)
        }
    }
}

/// The document after applying `edits`.
pub open spec fn applied(lines: Seq<Seq<char>>, edits: Seq<EditModel>) -> Seq<char> {
    let sorted = sorted_by_start(edits);
    let text = joined(lines);
    apply_from(lines, text, sorted, sorted.len() as int, text.len() as int)
}

/// An edit's range is ordered and lies on lines of the document (or just
/// past them), at an offset that a `usize` holds.
pub open spec fn edit_in_bounds(lines: Seq<Seq<char>>, e: EditModel) -> bool {
    &&& e.range.start.line <= lines.len()
    &&& e.range.end.line <= lines.len()
    &&& offset_of(lines, e.range.start) <= offset_of(lines, e.range.end)
    &&& offset_of(lines, e.range.end) <= usize::MAX
}

pub open spec fn edits_in_bounds(lines: Seq<Seq<char>>, edits: Seq<EditModel>) -> bool {
    forall|i: int| 0 <= i < edits.len() ==> edit_in_bounds(lines, #[trigger] edits[i])
}

pub open spec fn edits_view(edits: Seq<TextEdit>) -> Seq<EditModel> {
    edits.map_values(|e: TextEdit| e@)
}


proof fn lemma_chars_before_line_monotone(lines: Seq<Seq<char>>, i: int, j: int)
    requires
        0 <= i <= j,
    ensures
        chars_before_line(lines, i) <= chars_before_line(lines, j),
    decreases j - i,
{
    if i < j {
        lemma_chars_before_line_monotone(lines, i, j - 1);
    }
}

/// The offset of `pos` in the lines joined by `'\n'`, or `None` where it
/// does not fit in a `usize`.
pub fn to_document_offset(lines: &Vec<String>, pos: Position) -> (r: Option<usize>)
    requires
        pos.line <= lines.len(),
    ensures
        r is Some <==> offset_of(lines_view(lines@), pos) <= usize::MAX,
        r is Some ==> r->0 == offset_of(lines_view(lines@), pos),
{
    let ghost lv = lines_view(lines@);
    let target = pos.line as usize;
    let mut acc: usize = 0;
    let mut i: usize = 0;
    while i < target
        invariant
            i <= target,
            target == pos.line,
            target <= lines.len(),
            lv == lines_view(lines@),
            acc == chars_before_line(lv, i as int),
        decreases target - i,
    {
        let len = lines[i].as_str().unicode_len();
        assert(lv[i as int] == lines@[i as int]@);
        proof {
            lemma_chars_before_line_monotone(lv, i as int + 1, pos.line as int);
        }
        match acc.checked_add(len) {
            Some(a) => match a.checked_add(1) {
                Some(b) => {
                    acc = b;
                },
                None => {
                    return None;
                },
            },
            None => {
                return None;
            },
        }
        i = i + 1;
    }
    acc.checked_add(pos.character as usize)
}

proof fn lemma_insert_at(s: Seq<EditModel>, e: EditModel, j: int)
    requires
        0 <= j <= s.len(),
        forall|k: int| j <= k < s.len() ==> pos_lt(e.range.start, #[trigger] s[k].range.start),
        j == 0 || pos_le(s[j - 1].range.start, e.range.start),
    ensures
        insert_by_start(s, e) == s.subrange(0, j).push(e) + s.subrange(j, s.len() as int),
    decreases s.len(),
{
    if s.len() == j {
        assert(s.subrange(0, j) == s);
        assert(s.subrange(0, j).push(e) + s.subrange(j, s.len() as int) =~= s.push(e));
    } else {
        let t = s.drop_last();
        lemma_insert_at(t, e, j);
        assert(insert_by_start(s, e) == insert_by_start(t, e).push(s.last()));
        assert(t.subrange(0, j) =~= s.subrange(0, j));
        assert(t.subrange(j, t.len() as int).push(s.last()) =~= s.subrange(j, s.len() as int));
        assert((t.subrange(0, j).push(e) + t.subrange(j, t.len() as int)).push(s.last())
            =~= s.subrange(0, j).push(e) + s.subrange(j, s.len() as int));
    }
}

/// The edits sorted by start position; edits with equal starts keep their order.
pub fn sort_by_start(edits: &Vec<TextEdit>) -> (r: Vec<TextEdit>)
    ensures
        edits_view(r@) == sorted_by_start(edits_view(edits@)),
{
    let ghost ev = edits_view(edits@);
    let mut res: Vec<TextEdit> = Vec::new();
    let mut k: usize = 0;
    while k < edits.len()
        invariant
            k <= edits.len(),
            ev == edits_view(edits@),
            edits_view(res@) == sorted_by_start(ev.subrange(0, k as int)),
        decreases edits.len() - k,
    {
        let e = edits[k].duplicate();
        let ghost before = edits_view(res@);
        let mut j: usize = res.len();
        while j > 0 && pos_lt_exec(e.range.start, res[j - 1].range.start)
            invariant
                j <= res.len(),
                before == edits_view(res@),
                forall|m: int| j <= m < res.len() ==> pos_lt(e.range.start, #[trigger] before[m].range.start),
            decreases j,
        {
            j = j - 1;
        }
        proof {
            lemma_insert_at(before, e@, j as int);
            let sub = ev.subrange(0, k as int + 1);
            assert(sub.drop_last() =~= ev.subrange(0, k as int));
            assert(sub.last() == e@);
        }
        res.insert(j, e);
        assert(edits_view(res@) =~= before.subrange(0, j as int).push(e@) + before.subrange(j as int, before.len() as int));
        k = k + 1;
    }
    assert(ev.subrange(0, edits.len() as int) =~= ev);
    res
}

fn pos_lt_exec(a: Position, b: Position) -> (r: bool)
    ensures
        r == pos_lt(a, b),
{
    a.line < b.line || (a.line == b.line && a.character < b.character)
}


proof fn lemma_insert_position(s: Seq<EditModel>, e: EditModel) -> (j: int)
    ensures
        0 <= j <= s.len(),
        insert_by_start(s, e) == s.insert(j, e),
    decreases s.len(),
{
    if s.len() == 0 {
        assert(s.insert(0, e) =~= seq![e]);
        0
    } else if pos_le(s.last().range.start, e.range.start) {
        assert(s.insert(s.len() as int, e) =~= s.push(e));
        s.len() as int
    } else {
        let t = s.drop_last();
        let j = lemma_insert_position(t, e);
        assert(t.insert(j, e).push(s.last()) =~= s.insert(j, e));
        j
    }
}

/// Sorting keeps every edit, each as often as it came.
pub proof fn lemma_sorted_by_start_multiset(s: Seq<EditModel>)
    ensures
        sorted_by_start(s).to_multiset() == s.to_multiset(),
    decreases s.len(),
{
    broadcast use vstd::seq_lib::group_to_multiset_ensures;

    if s.len() > 0 {
        let t = s.drop_last();
        lemma_sorted_by_start_multiset(t);
        let j = lemma_insert_position(sorted_by_start(t), s.last());
        assert(t.push(s.last()) =~= s);
    }
}

proof fn lemma_sorted_in_bounds(lines: Seq<Seq<char>>, s: Seq<EditModel>)
    requires
        edits_in_bounds(lines, s),
    ensures
        edits_in_bounds(lines, sorted_by_start(s)),
{
    broadcast use vstd::seq_lib::group_to_multiset_ensures;

    let t = sorted_by_start(s);
    lemma_sorted_by_start_multiset(s);
    assert forall|i: int| 0 <= i < t.len() implies edit_in_bounds(lines, #[trigger] t[i]) by {
        assert(t.contains(t[i]));
        assert(t.to_multiset().count(t[i]) > 0);
        assert(s.contains(t[i]));
    }
}

/// The lines joined by `'\n'`.
pub fn join_lines(lines: &Vec<String>) -> (r: String)
    ensures
        r@ == joined(lines_view(lines@)),
{
    let ghost lv = lines_view(lines@);
    let mut text = String::new();
    let mut i: usize = 0;
    proof {
        reveal_strlit("\n");
    }
    while i < lines.len()
        invariant
            i <= lines.len(),
            lv == lines_view(lines@),
            text@ == joined(lv.subrange(0, i as int)),
        decreases lines.len() - i,
    {
        let ghost sub = lv.subrange(0, i as int + 1);
        assert(sub.drop_last() =~= lv.subrange(0, i as int));
        assert(sub.last() == lines@[i as int]@);
        if i > 0 {
            let sep = "\n";
            proof {
                reveal_strlit("\n");
            }
            assert(sep@.len() == 1 && sep@[0] == '\n');
            assert(sep@ =~= seq!['\n']);
            text.append(sep);
            text.append(lines[i].as_str());
            assert(text@ =~= joined(sub));
        } else {
            assert(text@ =~= Seq::<char>::empty());
            text.append(lines[i].as_str());
            assert(sub.len() == 1);
            assert(text@ =~= joined(sub));
        }
        i = i + 1;
    }
    assert(lv.subrange(0, lines.len() as int) =~= lv);
    text
}

/// `text` with the characters in `[start, end)` replaced by `new_text`.
pub fn splice(text: &String, start: usize, end: usize, new_text: &String) -> (r: String)
    requires
        start <= end <= text@.len(),
    ensures
        r@ == text@.subrange(0, start as int) + new_text@ + text@.subrange(end as int, text@.len() as int),
{
    let len = text.as_str().unicode_len();
    let mut r = text.as_str().substring_char(0, start).to_owned();
    r.append(new_text.as_str());
    r.append(text.as_str().substring_char(end, len));
    r
}

/// Whether every edit lies on lines of the document, with its start not
/// after its end.
pub fn edits_fit(lines: &Vec<String>, edits: &Vec<TextEdit>) -> (r: bool)
    ensures
        r == edits_in_bounds(lines_view(lines@), edits_view(edits@)),
{
    let ghost lv = lines_view(lines@);
    let ghost ev = edits_view(edits@);
    let mut i: usize = 0;
    while i < edits.len()
        invariant
            i <= edits.len(),
            lv == lines_view(lines@),
            ev == edits_view(edits@),
            forall|k: int| 0 <= k < i ==> edit_in_bounds(lv, #[trigger] ev[k]),
        decreases edits.len() - i,
    {
        let e = &edits[i];
        assert(ev[i as int] == e@);
        if e.range.start.line as usize > lines.len() || e.range.end.line as usize > lines.len() {
            return false;
        }
        let st = to_document_offset(lines, e.range.start);
        let en = to_document_offset(lines, e.range.end);
        match (st, en) {
            (Some(a), Some(b)) => {
                if a > b {
                    return false;
                }
            },
            _ => {
                return false;
            },
        }
        i = i + 1;
    }
    true
}

/// Applies a server's edits to a document given as lines, as one text with
/// `'\n'` between lines.
///
/// The edits are sorted by start position and applied from the last to the
/// first. An edit whose end lies after the start of the previously applied
/// edit overlaps it and is skipped.
pub fn apply_edits(lines: &Vec<String>, edits: &Vec<TextEdit>) -> (r: String)
    requires
        edits_in_bounds(lines_view(lines@), edits_view(edits@)),
    ensures
        r@ == applied(lines_view(lines@), edits_view(edits@)),
{
    let ghost lv = lines_view(lines@);
    let sorted = sort_by_start(edits);
    let ghost sv = edits_view(sorted@);
    proof {
        lemma_sorted_in_bounds(lv, edits_view(edits@));
    }
    let mut text = join_lines(lines);
    let ghost text0 = text@;
    let mut last = text.as_str().unicode_len();
    let mut i = sorted.len();
    while i > 0
        invariant
            i <= sorted.len(),
            lv == lines_view(lines@),
            sv == edits_view(sorted@),
            edits_in_bounds(lv, sv),
            last <= text@.len(),
            apply_from(lv, text@, sv, i as int, last as int)
                == apply_from(lv, text0, sv, sv.len() as int, text0.len() as int),
        decreases i,
    {
        i = i - 1;
        let e = &sorted[i];
        assert(sv[i as int] == e@);
        assert(edit_in_bounds(lv, sv[i as int]));
        let end = to_document_offset(lines, e.range.end);
        let start = to_document_offset(lines, e.range.start);
        match (start, end) {
            (Some(st), Some(en)) => {
                if en <= last {
                    text = splice(&text, st, en, &e.new_text);
                    last = st;
                }
            },
            _ => {},
        }
    }
    text
}


/// No character of `s` is a line break.
pub open spec fn no_newline(s: Seq<char>) -> bool {
    forall|k: int| 0 <= k < s.len() ==> s[k] != '\n'
}

pub open spec fn all_no_newline(lines: Seq<Seq<char>>) -> bool {
    forall|i: int| 0 <= i < lines.len() ==> no_newline(#[trigger] lines[i])
}

/// `text` cut at each `'\n'`: the lines hold no line break and join back to
/// `text`.
pub fn split_lines(text: &str) -> (r: Vec<String>)
    ensures
        r@.len() >= 1,
        all_no_newline(lines_view(r@)),
        joined(lines_view(r@)) == text@,
{
    let n = text.unicode_len();
    let mut res: Vec<String> = Vec::new();
    let mut start: usize = 0;
    let mut i: usize = 0;
    while i < n
        invariant
            n == text@.len(),
            start <= i <= n,
            all_no_newline(lines_view(res@)),
            res@.len() == 0 ==> start == 0,
            res@.len() > 0 ==> joined(lines_view(res@)) + seq!['\n'] == text@.subrange(0, start as int),
            no_newline(text@.subrange(start as int, i as int)),
        decreases n - i,
    {
        let c = text.get_char(i);
        if c == '\n' {
            let line = text.substring_char(start, i).to_owned();
            let ghost old_res = lines_view(res@);
            res.push(line);
            proof {
                let rv = lines_view(res@);
                assert(rv =~= old_res.push(line@));
                assert(rv.drop_last() =~= old_res);
                if old_res.len() == 0 {
                    assert(joined(rv) == line@);
                }
                assert(joined(rv) + seq!['\n'] =~= text@.subrange(0, i as int + 1));
            }
            start = i + 1;
            assert(no_newline(text@.subrange(start as int, i as int + 1)));
        } else {
            assert(no_newline(text@.subrange(start as int, i as int + 1)));
        }
        i = i + 1;
    }
    let line = text.substring_char(start, n).to_owned();
    let ghost old_res = lines_view(res@);
    res.push(line);
    proof {
        let rv = lines_view(res@);
        assert(rv =~= old_res.push(line@));
        assert(rv.drop_last() =~= old_res);
        assert(joined(rv) =~= text@);
    }
    res
}

proof fn lemma_joined_len(a: Seq<Seq<char>>)
    requires
        a.len() > 1,
    ensures
        joined(a).len() == joined(a.drop_last()).len() + 1 + a.last().len(),
        joined(a)[joined(a.drop_last()).len() as int] == '\n',
        joined(a).subrange(0, joined(a.drop_last()).len() as int) == joined(a.drop_last()),
        joined(a).subrange(joined(a).len() - a.last().len(), joined(a).len() as int) == a.last(),
{
    let j = joined(a.drop_last());
    assert(joined(a) == j + seq!['\n'] + a.last());
    assert((j + seq!['\n'] + a.last()).subrange(0, j.len() as int) =~= j);
    assert((j + seq!['\n'] + a.last()).subrange(j.len() as int + 1, j.len() as int + 1 + a.last().len()) =~= a.last());
}

/// Lines free of line breaks are the only such lines that join to their text.
proof fn lemma_joined_unique(a: Seq<Seq<char>>, b: Seq<Seq<char>>)
    requires
        a.len() >= 1,
        b.len() >= 1,
        all_no_newline(a),
        all_no_newline(b),
        joined(a) == joined(b),
    ensures
        a == b,
    decreases a.len(),
{
    let t = joined(a);
    let n = t.len();
    if a.len() == 1 && b.len() == 1 {
        assert(a =~= b);
    } else if a.len() == 1 {
        lemma_joined_len(b);
        assert(no_newline(a[0]));
        assert(t[joined(b.drop_last()).len() as int] == '\n');
    } else if b.len() == 1 {
        lemma_joined_len(a);
        assert(no_newline(b[0]));
        assert(t[joined(a.drop_last()).len() as int] == '\n');
    } else {
        lemma_joined_len(a);
        lemma_joined_len(b);
        let la = a.last();
        let lb = b.last();
        assert(no_newline(la));
        assert(no_newline(lb));
        if la.len() < lb.len() {
            let k = n - la.len() - 1;
            assert(t[k] == '\n');
            assert(t.subrange(n - lb.len(), n as int)[k - (n - lb.len())] == t[k]);
        } else if lb.len() < la.len() {
            let k = n - lb.len() - 1;
            assert(t[k] == '\n');
            assert(t.subrange(n - la.len(), n as int)[k - (n - la.len())] == t[k]);
        }
        assert(la == lb);
        let a2 = a.drop_last();
        let b2 = b.drop_last();
        assert forall|i: int| 0 <= i < a2.len() implies no_newline(#[trigger] a2[i]) by {
            assert(a2[i] == a[i]);
        }
        assert forall|i: int| 0 <= i < b2.len() implies no_newline(#[trigger] b2[i]) by {
            assert(b2[i] == b[i]);
        }
        lemma_joined_unique(a2, b2);
        assert(a =~= a2.push(la));
        assert(b =~= b2.push(lb));
    }
}

/// Applying no edits gives back the document: its lines joined, which cut
/// into lines again are the lines given (for a document of at least one
/// line, none holding a line break).
pub proof fn lemma_no_edits_keep_lines(lines: Seq<Seq<char>>, again: Seq<Seq<char>>)
    requires
        lines.len() >= 1,
        all_no_newline(lines),
        again.len() >= 1,
        all_no_newline(again),
        joined(again) == applied(lines, Seq::<EditModel>::empty()),
    ensures
        applied(lines, Seq::<EditModel>::empty()) == joined(lines),
        again == lines,
{
    let e = Seq::<EditModel>::empty();
    assert(sorted_by_start(e) == e);
    lemma_joined_unique(again, lines);
}


/// Whether two edits lie apart: one starts before the other and ends no
/// later than where the other starts.
pub open spec fn disjoint(a: EditModel, b: EditModel) -> bool {
    ||| pos_lt(a.range.start, b.range.start) && pos_le(a.range.end, b.range.start)
    ||| pos_lt(b.range.start, a.range.start) && pos_le(b.range.end, a.range.start)
}

pub open spec fn pairwise_disjoint(s: Seq<EditModel>) -> bool {
    forall|i: int, j: int| 0 <= i < s.len() && 0 <= j < s.len() && i != j ==> disjoint(#[trigger] s[i], #[trigger] s[j])
}

pub open spec fn distinct_starts(s: Seq<EditModel>) -> bool {
    forall|i: int, j: int|
        0 <= i < s.len() && 0 <= j < s.len() && i != j ==> (#[trigger] s[i]).range.start != (#[trigger] s[j]).range.start
}

/// Sorted by start, no two starts the same.
pub open spec fn strictly_sorted(s: Seq<EditModel>) -> bool {
    forall|i: int, j: int| 0 <= i < j < s.len() ==> pos_lt((#[trigger] s[i]).range.start, (#[trigger] s[j]).range.start)
}

proof fn lemma_insert_strictly_sorted(s: Seq<EditModel>, e: EditModel)
    requires
        strictly_sorted(s),
        forall|i: int| 0 <= i < s.len() ==> (#[trigger] s[i]).range.start != e.range.start,
    ensures
        strictly_sorted(insert_by_start(s, e)),
    decreases s.len(),
{
    if s.len() == 0 {
    } else if pos_le(s.last().range.start, e.range.start) {
        let r = s.push(e);
        assert(s.last().range.start != e.range.start);
        assert forall|i: int, j: int| 0 <= i < j < r.len() implies pos_lt((#[trigger] r[i]).range.start, (#[trigger] r[j]).range.start) by {
            if j == r.len() - 1 && i < s.len() - 1 {
                assert(pos_lt(s[i].range.start, s[s.len() - 1].range.start));
            }
        }
    } else {
        let t = s.drop_last();
        assert forall|i: int, j: int| 0 <= i < j < t.len() implies pos_lt((#[trigger] t[i]).range.start, (#[trigger] t[j]).range.start) by {
            assert(t[i] == s[i] && t[j] == s[j]);
        }
        lemma_insert_strictly_sorted(t, e);
        let u = insert_by_start(t, e);
        let j0 = lemma_insert_position(t, e);
        let r = u.push(s.last());
        assert forall|i: int, j: int| 0 <= i < j < r.len() implies pos_lt((#[trigger] r[i]).range.start, (#[trigger] r[j]).range.start) by {
            if j == r.len() - 1 {
                if i < j0 {
                    assert(r[i] == t[i]);
                    assert(pos_lt(s[i].range.start, s[s.len() - 1].range.start));
                } else if i == j0 {
                    assert(r[i] == e);
                } else {
                    assert(r[i] == t[i - 1]);
                    assert(pos_lt(s[i - 1].range.start, s[s.len() - 1].range.start));
                }
            } else {
                assert(r[i] == u[i] && r[j] == u[j]);
            }
        }
    }
}

proof fn lemma_sorted_strictly(s: Seq<EditModel>)
    requires
        distinct_starts(s),
    ensures
        strictly_sorted(sorted_by_start(s)),
    decreases s.len(),
{
    broadcast use vstd::seq_lib::group_to_multiset_ensures;

    if s.len() > 0 {
        let t = s.drop_last();
        assert forall|i: int, j: int| 0 <= i < t.len() && 0 <= j < t.len() && i != j implies (#[trigger] t[i]).range.start
            != (#[trigger] t[j]).range.start by {
            assert(t[i] == s[i] && t[j] == s[j]);
        }
        lemma_sorted_strictly(t);
        let st = sorted_by_start(t);
        lemma_sorted_by_start_multiset(t);
        assert forall|i: int| 0 <= i < st.len() implies (#[trigger] st[i]).range.start != s.last().range.start by {
            assert(st.contains(st[i]));
            assert(st.to_multiset().count(st[i]) > 0);
            assert(t.contains(st[i]));
            let w = choose|w: int| 0 <= w < t.len() && t[w] == st[i];
            assert(s[w] == t[w]);
            assert(s[w].range.start != s[s.len() - 1].range.start);
        }
        lemma_insert_strictly_sorted(st, s.last());
    }
}

proof fn lemma_strictly_sorted_unique(a: Seq<EditModel>, b: Seq<EditModel>)
    requires
        strictly_sorted(a),
        strictly_sorted(b),
        a.to_multiset() == b.to_multiset(),
    ensures
        a == b,
    decreases a.len(),
{
    broadcast use vstd::seq_lib::group_to_multiset_ensures;
    broadcast use vstd::multiset::group_multiset_axioms;

    assert(a.len() == a.to_multiset().len());
    assert(b.len() == b.to_multiset().len());
    if a.len() == 0 {
        assert(a =~= b);
    } else {
        let n = a.len() as int;
        let x = a.last();
        let y = b.last();
        assert(a.contains(x));
        assert(a.to_multiset().count(x) > 0);
        assert(b.contains(x));
        let j = choose|j: int| 0 <= j < b.len() && b[j] == x;
        assert(b.to_multiset().count(y) > 0);
        assert(a.contains(y));
        let k = choose|k: int| 0 <= k < a.len() && a[k] == y;
        if k < n - 1 {
            assert(pos_lt(a[k].range.start, a[n - 1].range.start));
        }
        if j < n - 1 {
            assert(pos_lt(b[j].range.start, b[n - 1].range.start));
        }
        assert(j == n - 1);
        assert(x == y);
        let a2 = a.drop_last();
        let b2 = b.drop_last();
        assert(a2.push(x) =~= a);
        assert(b2.push(x) =~= b);
        assert(a2.to_multiset() =~= a.to_multiset().remove(x));
        assert(b2.to_multiset() =~= b.to_multiset().remove(x));
        assert forall|i: int, i2: int| 0 <= i < i2 < a2.len() implies pos_lt((#[trigger] a2[i]).range.start, (#[trigger] a2[i2]).range.start) by {
            assert(a2[i] == a[i] && a2[i2] == a[i2]);
        }
        assert forall|i: int, i2: int| 0 <= i < i2 < b2.len() implies pos_lt((#[trigger] b2[i]).range.start, (#[trigger] b2[i2]).range.start) by {
            assert(b2[i] == b[i] && b2[i2] == b[i2]);
        }
        lemma_strictly_sorted_unique(a2, b2);
    }
}

/// Edits that lie apart from each other give the same document in whatever
/// order they come.
pub proof fn lemma_disjoint_edits_any_order(lines: Seq<Seq<char>>, a: Seq<EditModel>, b: Seq<EditModel>)
    requires
        a.to_multiset() == b.to_multiset(),
        pairwise_disjoint(a),
        pairwise_disjoint(b),
    ensures
        applied(lines, a) == applied(lines, b),
{
    assert forall|i: int, j: int| 0 <= i < a.len() && 0 <= j < a.len() && i != j implies (#[trigger] a[i]).range.start
        != (#[trigger] a[j]).range.start by {
        assert(disjoint(a[i], a[j]));
    }
    assert forall|i: int, j: int| 0 <= i < b.len() && 0 <= j < b.len() && i != j implies (#[trigger] b[i]).range.start
        != (#[trigger] b[j]).range.start by {
        assert(disjoint(b[i], b[j]));
    }
    lemma_sorted_strictly(a);
    lemma_sorted_strictly(b);
    lemma_sorted_by_start_multiset(a);
    lemma_sorted_by_start_multiset(b);
    lemma_strictly_sorted_unique(sorted_by_start(a), sorted_by_start(b));
}

} // verus!
