use conceal_map::animation::rotation_steps;
use conceal_map::coords::{
    Bias, ConcealOffset, ConcealPoint, FoldOffset, FoldPoint, MBTextSummary,
    MultiBufferOffset as O, Point,
};
use conceal_map::edits::{ConcealEdit, Edit, FoldEdit, Patch};
use conceal_map::fold::{Anchor, AnchorPlace, FoldSnapshot, FoldStyling, RowInfo, Run};
use conceal_map::map::ConcealMap;
use conceal_map::resolve::Concealment;
use conceal_map::snapshot::ConcealSnapshot;
use std::collections::HashSet;

/// The runs of a text that is styled nowhere: as long as their bits allow.
fn plain_runs(text: &str) -> Vec<Run> {
    let mut runs = Vec::new();
    let mut start = 0;
    while start < text.len() {
        let mut end = (start + 128).min(text.len());
        while !text.is_char_boundary(end) {
            end -= 1;
        }
        let (mut tabs, mut chars, mut newlines) = (0u128, 0u128, 0u128);
        for (i, c) in text[start..end].char_indices() {
            chars |= 1 << i;
            if c == '\t' {
                tabs |= 1 << i;
            }
            if c == '\n' {
                newlines |= 1 << i;
            }
        }
        runs.push(Run {
            len: end - start,
            tabs,
            chars,
            newlines,
            syntax_highlight_id: None,
            highlight_style: None,
            diagnostic_severity: None,
            is_unnecessary: false,
            is_tab: false,
            is_inlay: false,
            underline: false,
            renderer: None,
        });
        start = end;
    }
    runs
}

fn point_at(text: &str, offset: usize) -> Point {
    let before = &text[..offset];
    let row = before.matches('\n').count();
    let column = before.len() - before.rfind('\n').map_or(0, |i| i + 1);
    Point::new(row as u32, column as u32)
}

/// A snapshot of a text without folds, with anchors at the given offsets.
fn fold_snapshot(text: &str, version: usize, anchors: &[usize]) -> FoldSnapshot {
    let rows = text.matches('\n').count() as u32 + 1;
    let mut stops: Vec<usize> = text.char_indices().map(|(i, _)| i).collect();
    stops.push(text.len());
    FoldSnapshot {
        text: text.to_string(),
        version,
        styling: FoldStyling { runs: plain_runs(text) },
        rows: (0..rows)
            .map(|row| RowInfo {
                buffer_id: Some(1),
                buffer_row: Some(row),
                multibuffer_row: Some(row),
                wrapped_buffer_row: None,
            })
            .collect(),
        stops,
        anchors: anchors
            .iter()
            .map(|&offset| {
                let point = FoldPoint(point_at(text, offset));
                AnchorPlace { left: point, right: point }
            })
            .collect(),
    }
}

/// A buffer whose anchors keep their places while it is edited.
struct Buffer {
    text: String,
    version: usize,
    /// The offset of each anchor, and whether it stays behind text inserted there.
    anchors: Vec<(usize, bool)>,
}

impl Buffer {
    fn new(text: &str) -> Self {
        Buffer { text: text.to_string(), version: 0, anchors: Vec::new() }
    }

    fn anchor_after(&mut self, offset: usize) -> Anchor {
        self.anchors.push((offset, true));
        Anchor(self.anchors.len() - 1)
    }

    fn anchor_before(&mut self, offset: usize) -> Anchor {
        self.anchors.push((offset, false));
        Anchor(self.anchors.len() - 1)
    }

    fn conceal(&mut self, start: usize, end: usize, text: &str) -> Concealment {
        (self.anchor_after(start)..self.anchor_before(end), text.to_string())
    }

    fn snapshot(&self) -> FoldSnapshot {
        let offsets: Vec<usize> = self.anchors.iter().map(|anchor| anchor.0).collect();
        fold_snapshot(&self.text, self.version, &offsets)
    }

    fn edit(&mut self, start: usize, end: usize, insert: &str) -> Vec<FoldEdit> {
        if start == end && insert.is_empty() {
            return vec![];
        }
        self.text.replace_range(start..end, insert);
        self.version += 1;
        let new_end = start + insert.len();
        for (offset, after) in self.anchors.iter_mut() {
            if *offset > end || (*offset == end && end > start) || (*offset == end && *after) {
                *offset = *offset - end + new_end;
            } else if *offset > start {
                *offset = if *after { new_end } else { start };
            }
        }
        vec![Edit {
            old: FoldOffset(O(start))..FoldOffset(O(end)),
            new: FoldOffset(O(start))..FoldOffset(O(new_end)),
        }]
    }
}

/// A layer over `text` that conceals the given ranges.
fn conceal(text: &str, ranges: &[(usize, usize, &str)]) -> (ConcealMap, ConcealSnapshot, Buffer) {
    let mut buffer = Buffer::new(text);
    let concealments: Vec<Concealment> =
        ranges.iter().map(|&(start, end, shown)| buffer.conceal(start, end, shown)).collect();
    let (mut map, _) = ConcealMap::new(buffer.snapshot());
    let (snapshot, _) = map.set_concealments(concealments);
    (map, snapshot, buffer)
}

fn ranges_of(edits: &[ConcealEdit]) -> Vec<(usize, usize, usize, usize)> {
    edits
        .iter()
        .map(|edit| (edit.old.start.0 .0, edit.old.end.0 .0, edit.new.start.0 .0, edit.new.end.0 .0))
        .collect()
}

/// The text between two offsets, read chunk by chunk.
fn read_chunks(snapshot: &ConcealSnapshot, start: usize, end: usize) -> String {
    let mut chunks = snapshot.chunks(
        ConcealOffset(O(start))..ConcealOffset(O(end)),
        &snapshot.fold_snapshot.styling,
    );
    let mut text = String::new();
    while let Some(chunk) = chunks.next() {
        text.push_str(chunk.text);
    }
    text
}

#[test]
fn test_conceal_then_reveal() {
    let mut buffer = Buffer::new("x = 2\nlambda x: x + 1\n");
    let concealments = vec![buffer.conceal(6, 12, "λ")];
    let (mut conceal_map, _) = ConcealMap::new(buffer.snapshot());
    let (snapshot, _) = conceal_map.set_concealments(concealments);
    assert_eq!(snapshot.text(), "x = 2\nλ x: x + 1\n");

    conceal_map.set_revealed_indices(HashSet::from_iter([0]));
    let (snapshot, _) = conceal_map.read(buffer.snapshot(), vec![]);
    assert_eq!(snapshot.text(), "x = 2\nlambda x: x + 1\n");

    conceal_map.set_revealed_indices(HashSet::default());
    let (snapshot, _) = conceal_map.read(buffer.snapshot(), vec![]);
    assert_eq!(snapshot.text(), "x = 2\nλ x: x + 1\n");
}

#[test]
fn test_basic_concealment() {
    let (_, snapshot, _) = conceal("hello != world", &[(6, 8, "≠")]);
    assert_eq!(snapshot.text(), "hello ≠ world");
}

#[test]
fn test_multiple_concealments() {
    let (_, snapshot, _) = conceal("a != b && c", &[(2, 4, "≠"), (7, 9, "∧")]);
    assert_eq!(snapshot.text(), "a ≠ b ∧ c");
}

#[test]
fn test_concealment_point_conversion() {
    let (_, snapshot, _) = conceal("lambda x: x", &[(0, 6, "λ")]);
    assert_eq!(snapshot.text(), "λ x: x");

    let fold_point_for_x = FoldPoint::new(0, 7);
    let conceal_point = snapshot.to_conceal_point(fold_point_for_x, Bias::Right);
    assert_eq!(conceal_point, ConcealPoint::new(0, 3));

    let back = conceal_point.to_fold_point(&snapshot);
    assert_eq!(back, fold_point_for_x);
}

#[test]
fn test_concealment_clear() {
    let (mut conceal_map, snapshot, _) = conceal("hello != world", &[(6, 8, "≠")]);
    assert_eq!(snapshot.text(), "hello ≠ world");

    let (snapshot, _) = conceal_map.set_concealments(vec![]);
    assert_eq!(snapshot.text(), "hello != world");
}

#[test]
fn test_concealment_with_buffer_edit() {
    let (mut conceal_map, snapshot, mut buffer) = conceal("a != b", &[(2, 4, "≠")]);
    assert_eq!(snapshot.text(), "a ≠ b");

    let edits = buffer.edit(6, 6, "cd");
    let (snapshot, _) = conceal_map.read(buffer.snapshot(), edits);
    assert_eq!(snapshot.text(), "a ≠ bcd");
}

#[test]
fn test_text_summary_across_concealment() {
    let (_, snapshot, _) = conceal("lambda x", &[(0, 6, "λ")]);
    assert_eq!(snapshot.text(), "λ x");

    let summary = snapshot.text_summary_for_range(ConcealPoint::new(0, 0)..snapshot.max_point());
    assert_eq!(summary.len, O(4));
    assert_eq!(summary.lines, Point::new(0, 4));
}

#[test]
fn test_overlapping_concealments_keep_first() {
    let (_, snapshot, _) = conceal("a !== b", &[(2, 4, "≠"), (3, 5, "≡")]);
    assert_eq!(snapshot.text(), "a ≠= b");
}

#[test]
fn test_incremental_sync_edit_near_concealment() {
    let (mut conceal_map, snapshot, mut buffer) = conceal("hello != world", &[(6, 8, "≠")]);
    assert_eq!(snapshot.text(), "hello ≠ world");

    let edits = buffer.edit(0, 0, "dear ");
    let (snapshot, _) = conceal_map.read(buffer.snapshot(), edits);
    assert_eq!(snapshot.text(), "dear hello ≠ world");
}

#[test]
fn test_incremental_sync_edit_after_concealment() {
    let (mut conceal_map, snapshot, mut buffer) = conceal("a != b", &[(2, 4, "≠")]);
    assert_eq!(snapshot.text(), "a ≠ b");

    let edits = buffer.edit(6, 6, " and c");
    let (snapshot, _) = conceal_map.read(buffer.snapshot(), edits);
    assert_eq!(snapshot.text(), "a ≠ b and c");
}

#[test]
fn test_multi_line_concealment() {
    let (_, snapshot, _) = conceal("if (\n  true\n):\n  pass\n", &[(0, 2, "⌥")]);
    assert_eq!(snapshot.text(), "⌥ (\n  true\n):\n  pass\n");

    assert_eq!(snapshot.max_point(), ConcealPoint::new(4, 0));
    assert_eq!(snapshot.len().0, O("⌥ (\n  true\n):\n  pass\n".len()));
}

#[test]
fn test_empty_buffer() {
    let mut buffer = Buffer::new("");
    let concealments = vec![buffer.conceal(0, 0, "λ")];
    let (mut conceal_map, _) = ConcealMap::new(buffer.snapshot());
    let (snapshot, edits) = conceal_map.set_concealments(concealments);
    assert_eq!(snapshot.text(), "");
    assert!(edits.is_empty());
    assert_eq!(snapshot.max_point(), ConcealPoint::new(0, 0));
    assert_eq!(snapshot.len(), ConcealOffset(O(0)));
}

#[test]
fn test_concealment_at_buffer_boundaries() {
    let (_, snapshot, _) = conceal("hello world", &[(0, 5, "hi")]);
    assert_eq!(snapshot.text(), "hi world");

    let (_, snapshot, _) = conceal("hello world", &[(6, 11, "🌍")]);
    assert_eq!(snapshot.text(), "hello 🌍");

    let (_, snapshot, _) = conceal("hello", &[(0, 5, "hi")]);
    assert_eq!(snapshot.text(), "hi");
}

#[test]
fn test_expanding_concealment() {
    let (_, snapshot, _) = conceal("a != b", &[(2, 4, "not_equal_to")]);
    assert_eq!(snapshot.text(), "a not_equal_to b");

    let summary = snapshot.text_summary_for_range(ConcealPoint::new(0, 0)..snapshot.max_point());
    assert_eq!(summary.len, O("a not_equal_to b".len()));
}

#[test]
fn test_clip_point_with_bias() {
    let (_, snapshot, _) = conceal("hello != world", &[(6, 8, "≠")]);
    assert_eq!(snapshot.text(), "hello ≠ world");

    let inside = ConcealPoint::new(0, 7);
    assert_eq!(snapshot.clip_point(inside, Bias::Left), ConcealPoint::new(0, 6));
    assert_eq!(snapshot.clip_point(inside, Bias::Right), ConcealPoint::new(0, 9));

    let before = ConcealPoint::new(0, 3);
    assert_eq!(snapshot.clip_point(before, Bias::Left), before);
    assert_eq!(snapshot.clip_point(before, Bias::Right), before);

    let past_end = ConcealPoint::new(0, 100);
    assert_eq!(snapshot.clip_point(past_end, Bias::Left), snapshot.max_point());
}

#[test]
fn test_line_len_with_concealment() {
    let (_, snapshot, _) = conceal("hello != world\nfoo", &[(6, 8, "≠")]);
    assert_eq!(snapshot.text(), "hello ≠ world\nfoo");

    assert_eq!(snapshot.line_len(0), "hello ≠ world".len() as u32);
    assert_eq!(snapshot.line_len(1), 3);
}

#[test]
fn test_line_len_last_row_no_trailing_newline() {
    let (_, snapshot, _) = conceal("a != b", &[(2, 4, "≠")]);
    assert_eq!(snapshot.text(), "a ≠ b");
    assert_eq!(snapshot.line_len(0), "a ≠ b".len() as u32);
}

#[test]
fn test_conceal_rows_iterator() {
    let (_, snapshot, _) = conceal("aaa\nlambda\nccc\n", &[(4, 10, "λ")]);
    assert_eq!(snapshot.text(), "aaa\nλ\nccc\n");

    let mut rows = snapshot.row_infos(0);
    let r0 = rows.next().expect("row 0");
    assert_eq!(r0.buffer_row, Some(0));
    let r1 = rows.next().expect("row 1");
    assert_eq!(r1.buffer_row, Some(1));
    let r2 = rows.next().expect("row 2");
    assert_eq!(r2.buffer_row, Some(2));
    let r3 = rows.next().expect("row 3");
    assert_eq!(r3.buffer_row, Some(3));
    assert!(rows.next().is_none());
}

#[test]
fn test_chunks_seek() {
    let (_, snapshot, _) = conceal("hello != world == end", &[(6, 8, "≠"), (15, 17, "≡")]);
    let full_text = snapshot.text();
    assert_eq!(full_text, "hello ≠ world ≡ end");

    let mid = "hello ≠ wor".len();
    assert_eq!(read_chunks(&snapshot, mid, snapshot.len().0 .0), "ld ≡ end");

    let mid2 = "hello ≠ world ".len();
    assert_eq!(read_chunks(&snapshot, mid2, snapshot.len().0 .0), "≡ end");
}

/// A small generator of numbers that look random.
struct Random(u64);

impl Random {
    fn next(&mut self) -> u64 {
        self.0 ^= self.0 << 13;
        self.0 ^= self.0 >> 7;
        self.0 ^= self.0 << 17;
        self.0
    }

    /// A number from `low` to `high`, both included.
    fn range(&mut self, low: usize, high: usize) -> usize {
        low + (self.next() % (high - low + 1) as u64) as usize
    }

    fn letter(&mut self) -> char {
        (b'a' + self.range(0, 25) as u8) as char
    }
}

#[test]
fn test_random_concealments() {
    for iteration in 0..100u64 {
        let mut rng = Random(iteration.wrapping_mul(0x9e37_79b9_7f4a_7c15) | 1);
        let num_lines = rng.range(1, 10);
        let mut text = String::new();
        for i in 0..num_lines {
            let len = rng.range(5, 20);
            for _ in 0..len {
                text.push(rng.letter());
            }
            if i < num_lines - 1 {
                text.push('\n');
            }
        }

        let mut buffer = Buffer::new(&text);
        let text_len = text.len();
        let num_concealments = rng.range(0, 6);
        let mut ranges: Vec<(usize, usize)> = Vec::new();
        for _ in 0..num_concealments {
            if text_len < 3 {
                break;
            }
            let start = rng.range(0, text_len - 3);
            let max_len = (text_len - start).min(5);
            if max_len < 1 {
                continue;
            }
            let len = rng.range(1, max_len);
            let end = start + len;
            if ranges.iter().any(|&(s, e)| start < e && end > s) {
                continue;
            }
            ranges.push((start, end));
        }
        ranges.sort_by_key(|&(s, _)| s);

        let concealments: Vec<Concealment> =
            ranges.iter().map(|&(start, end)| buffer.conceal(start, end, "•")).collect();
        let num_concealments = concealments.len();
        let fold = buffer.snapshot();
        let (mut conceal_map, _) = ConcealMap::new(fold.clone());
        let (snapshot, _) = conceal_map.set_concealments(concealments);

        let text_from_chunks = snapshot.text();
        let expected_len = snapshot.len();
        assert_eq!(
            text_from_chunks.len(),
            expected_len.0 .0,
            "text len mismatch after set_concealments"
        );

        let max_point = snapshot.max_point();
        for row in 0..=max_point.row() {
            let line_len = snapshot.line_len(row);
            let start = ConcealPoint::new(row, 0);
            let end = ConcealPoint::new(row, line_len);
            let start_offset = start.to_offset(&snapshot);
            let end_offset = end.to_offset(&snapshot);
            assert!(end_offset >= start_offset, "line {row}: end offset < start offset");
            let back = start_offset.to_point(&snapshot);
            assert_eq!(back, start, "round-trip offset→point for row {row}");
        }

        if num_concealments > 0 {
            let reveal_count = rng.range(0, num_concealments);
            let mut revealed: HashSet<usize> = HashSet::new();
            for i in 0..num_concealments {
                if revealed.len() < reveal_count && rng.range(0, 1) == 1 {
                    revealed.insert(i);
                }
            }
            conceal_map.set_revealed_indices(revealed);
            let (snapshot, _) = conceal_map.read(fold, vec![]);

            let text_after_reveal = snapshot.text();
            assert_eq!(
                text_after_reveal.len(),
                snapshot.len().0 .0,
                "text len mismatch after reveal"
            );
        }

        let edit_start = rng.range(0, text_len);
        let edit_end = rng.range(edit_start, text_len);
        let insert_len = rng.range(0, 5);
        let insert: String = (0..insert_len).map(|_| rng.letter()).collect();
        let edits = buffer.edit(edit_start, edit_end, &insert);
        let (snapshot, _) = conceal_map.read(buffer.snapshot(), edits);

        let final_text = snapshot.text();
        assert_eq!(
            final_text.len(),
            snapshot.len().0 .0,
            "text len mismatch after edit sync"
        );
    }
}

/// Reveals the given concealments and follows that.
fn read_revealed(
    map: &mut ConcealMap,
    buffer: &Buffer,
    revealed: &[usize],
) -> (ConcealSnapshot, Vec<ConcealEdit>) {
    map.set_revealed_indices(revealed.iter().copied().collect());
    map.read(buffer.snapshot(), vec![])
}

/// `old` with the edits applied, the new text being taken from `new`.
fn patched(old: &str, new: &str, edits: &[ConcealEdit]) -> String {
    let mut text = String::new();
    let mut at = 0;
    for (old_start, old_end, new_start, new_end) in ranges_of(edits) {
        text.push_str(&old[at..old_start]);
        text.push_str(&new[new_start..new_end]);
        at = old_end;
    }
    text.push_str(&old[at..]);
    text
}

#[test]
fn a_new_layer_displays_the_text_below() {
    let buffer = Buffer::new("x = 2\ny\n");
    let (map, snapshot) = ConcealMap::new(buffer.snapshot());
    assert_eq!(snapshot.text(), "x = 2\ny\n");
    assert_eq!(snapshot.version, 0);
    assert_eq!(snapshot.len(), ConcealOffset(O(8)));
    assert_eq!(snapshot.max_point(), ConcealPoint::new(2, 0));
    assert!(map.concealments().is_empty());
    assert_eq!(FoldSnapshot::len(&snapshot), FoldOffset(O(8)));
}

#[test]
fn concealments_are_kept_as_they_were_set() {
    let (map, snapshot, _) = conceal("a != b", &[(2, 4, "≠")]);
    assert_eq!(snapshot.version, 1);
    assert_eq!(map.concealments().len(), 1);
    assert_eq!(map.concealments()[0].0, Anchor(0)..Anchor(1));
    assert_eq!(map.concealments()[0].1, "≠");
}

#[test]
fn setting_concealments_edits_the_whole_text() {
    let mut buffer = Buffer::new("a != b");
    let concealments = vec![buffer.conceal(2, 4, "≠")];
    let (mut map, _) = ConcealMap::new(buffer.snapshot());
    let (snapshot, edits) = map.set_concealments(concealments);
    assert_eq!(ranges_of(&edits), [(0, 6, 0, 7)]);
    assert_eq!(patched("a != b", &snapshot.text(), &edits), "a ≠ b");
}

#[test]
fn setting_concealments_that_measure_the_same_edits_nothing() {
    let mut buffer = Buffer::new("a != b");
    let concealments = vec![buffer.conceal(2, 4, "<>")];
    let (mut map, _) = ConcealMap::new(buffer.snapshot());
    let (snapshot, edits) = map.set_concealments(concealments);
    assert_eq!(snapshot.text(), "a <> b");
    assert!(edits.is_empty());
}

#[test]
fn of_concealments_that_start_alike_the_first_is_kept() {
    let (_, snapshot, _) = conceal("abcdef", &[(3, 5, "x"), (1, 3, "y"), (1, 2, "z")]);
    assert_eq!(snapshot.text(), "ayxf");
}

#[test]
fn a_concealment_without_a_place_hides_nothing() {
    let (_, snapshot, _) = conceal("abc", &[(2, 2, "x"), (2, 1, "y")]);
    assert_eq!(snapshot.text(), "abc");
    assert_eq!(read_chunks(&snapshot, 1, 3), "bc");
}

#[test]
fn an_anchor_leans_into_its_range() {
    let mut fold = fold_snapshot("abcdef", 0, &[0, 0]);
    fold.anchors[0] = AnchorPlace { left: FoldPoint::new(0, 1), right: FoldPoint::new(0, 2) };
    fold.anchors[1] = AnchorPlace { left: FoldPoint::new(0, 4), right: FoldPoint::new(0, 5) };
    let (mut map, _) = ConcealMap::new(fold);
    let (snapshot, _) = map.set_concealments(vec![(Anchor(0)..Anchor(1), "-".to_string())]);
    assert_eq!(snapshot.text(), "ab-ef");
}

#[test]
fn revealing_edits_the_revealed_range() {
    let (mut map, snapshot, buffer) = conceal("a != b && c", &[(2, 4, "≠"), (7, 9, "∧")]);
    let before = snapshot.text();
    let (snapshot, edits) = read_revealed(&mut map, &buffer, &[0]);
    assert_eq!(snapshot.text(), "a != b ∧ c");
    assert_eq!(ranges_of(&edits), [(2, 5, 2, 4)]);
    assert_eq!(patched(&before, &snapshot.text(), &edits), snapshot.text());

    let before = snapshot.text();
    let (snapshot, edits) = read_revealed(&mut map, &buffer, &[1]);
    assert_eq!(snapshot.text(), "a ≠ b && c");
    assert_eq!(ranges_of(&edits), [(2, 4, 2, 5), (7, 10, 8, 10)]);
    assert_eq!(patched(&before, &snapshot.text(), &edits), snapshot.text());
}

#[test]
fn revealing_there_and_back_displays_the_same() {
    let (mut map, snapshot, buffer) = conceal("a != b && c", &[(2, 4, "≠"), (7, 9, "∧")]);
    read_revealed(&mut map, &buffer, &[0, 1]);
    let (back, _) = read_revealed(&mut map, &buffer, &[]);
    assert_eq!(back.text(), snapshot.text());
}

#[test]
fn with_all_revealed_the_text_below_is_displayed() {
    let (mut map, _, buffer) = conceal("a != b && c", &[(2, 4, "≠"), (7, 9, "∧")]);
    let (snapshot, _) = read_revealed(&mut map, &buffer, &[0, 1]);
    assert_eq!(snapshot.text(), "a != b && c");
}

#[test]
fn revealing_shows_a_concealment_that_ends_where_the_revealed_one_starts() {
    let (mut map, snapshot, buffer) = conceal("abcdef", &[(1, 3, "x"), (3, 5, "y")]);
    assert_eq!(snapshot.text(), "axyf");
    let (snapshot, _) = read_revealed(&mut map, &buffer, &[1]);
    assert_eq!(snapshot.text(), "abcdef");
    assert_eq!(snapshot.len(), ConcealOffset(O(6)));
}

#[test]
fn reading_without_a_change_gives_the_same_snapshot() {
    let (mut map, snapshot, buffer) = conceal("a != b", &[(2, 4, "≠")]);
    let (again, edits) = map.read(buffer.snapshot(), vec![]);
    assert!(edits.is_empty());
    assert_eq!(again.version, snapshot.version);
    assert_eq!(again.text(), snapshot.text());

    let (first, _) = read_revealed(&mut map, &buffer, &[0]);
    let (second, edits) = map.read(buffer.snapshot(), vec![]);
    assert!(edits.is_empty());
    assert_eq!(second.version, first.version);
}

#[test]
fn another_version_of_the_same_text_is_taken_over() {
    let (mut map, snapshot, mut buffer) = conceal("a != b", &[(2, 4, "≠")]);
    buffer.version = 7;
    let (again, edits) = map.read(buffer.snapshot(), vec![]);
    assert!(edits.is_empty());
    assert_eq!(again.version, snapshot.version + 1);
    assert_eq!(again.fold_snapshot.version, 7);
    assert_eq!(again.text(), "a ≠ b");
}

#[test]
fn a_fold_snapshot_can_be_taken_over_without_a_new_version() {
    let (mut map, snapshot, mut buffer) = conceal("a != b", &[(2, 4, "≠")]);
    map.set_revealed_indices(HashSet::from_iter([0]));
    buffer.version = 3;
    map.sync_fold_snapshot(buffer.snapshot());
    let (again, edits) = map.read(buffer.snapshot(), vec![]);
    assert!(edits.is_empty());
    assert_eq!(again.version, snapshot.version);
    assert_eq!(again.fold_snapshot.version, 3);
    assert_eq!(again.text(), "a ≠ b");
}

#[test]
fn edits_are_followed_by_edits_of_the_displayed_text() {
    let (mut map, snapshot, mut buffer) = conceal("a != b && c", &[(2, 4, "≠"), (7, 9, "∧")]);
    let before = snapshot.text();
    let edits = buffer.edit(5, 6, "beta");
    let (snapshot, edits) = map.read(buffer.snapshot(), edits);
    assert_eq!(snapshot.text(), "a ≠ beta ∧ c");
    assert_eq!(ranges_of(&edits), [(6, 7, 6, 10)]);
    assert_eq!(patched(&before, &snapshot.text(), &edits), snapshot.text());
}

#[test]
fn several_edits_are_followed_in_order() {
    let (mut map, snapshot, mut buffer) = conceal("a != b && c", &[(2, 4, "≠"), (7, 9, "∧")]);
    let before = snapshot.text();
    let mut edits = buffer.edit(0, 1, "left");
    let second = buffer.edit(13, 14, "");
    edits.push(Edit {
        old: FoldOffset(O(10))..FoldOffset(O(11)),
        new: second[0].new.start..second[0].new.end,
    });
    assert_eq!(buffer.text, "left != b && ");
    let (snapshot, edits) = map.read(buffer.snapshot(), edits);
    assert_eq!(snapshot.text(), "left ≠ b ∧ ");
    assert_eq!(ranges_of(&edits), [(0, 1, 0, 4), (12, 13, 15, 15)]);
    assert_eq!(patched(&before, &snapshot.text(), &edits), snapshot.text());
}

#[test]
fn an_edit_that_removes_a_concealment_shows_what_is_left() {
    let (mut map, _, mut buffer) = conceal("a != b", &[(2, 4, "≠")]);
    let edits = buffer.edit(1, 5, "");
    let (snapshot, _) = map.read(buffer.snapshot(), edits);
    assert_eq!(snapshot.text(), "ab");
}

#[test]
fn a_text_can_become_empty_and_be_filled_again() {
    let (mut map, _, mut buffer) = conceal("a != b", &[(2, 4, "≠")]);
    let edits = buffer.edit(0, 6, "");
    let (snapshot, _) = map.read(buffer.snapshot(), edits);
    assert_eq!(snapshot.text(), "");
    assert_eq!(snapshot.max_point(), ConcealPoint::new(0, 0));
    let edits = buffer.edit(0, 0, "new");
    let (snapshot, edits) = map.read(buffer.snapshot(), edits);
    assert_eq!(snapshot.text(), "new");
    assert_eq!(ranges_of(&edits), [(0, 0, 0, 3)]);
}

#[test]
fn a_patch_drops_empty_edits_and_joins_those_that_touch() {
    let edit = |a: usize, b: usize, c: usize, d: usize| Edit {
        old: ConcealOffset(O(a))..ConcealOffset(O(b)),
        new: ConcealOffset(O(c))..ConcealOffset(O(d)),
    };
    let mut patch = Patch::new();
    patch.push(edit(1, 1, 1, 1));
    patch.push(edit(2, 3, 2, 4));
    patch.push(edit(3, 5, 4, 4));
    patch.push(edit(7, 7, 6, 8));
    assert_eq!(ranges_of(&patch.into_inner()), [(2, 5, 2, 4), (7, 7, 6, 8)]);
}

#[test]
fn points_and_offsets_lead_to_each_other() {
    let (_, snapshot, _) = conceal("ab\nlambda\nc", &[(3, 9, "λ")]);
    assert_eq!(snapshot.text(), "ab\nλ\nc");
    for (offset, row, column) in
        [(0, 0, 0), (2, 0, 2), (3, 1, 0), (5, 1, 2), (6, 2, 0), (7, 2, 1)]
    {
        let point = ConcealPoint::new(row, column);
        assert_eq!(ConcealOffset(O(offset)).to_point(&snapshot), point);
        assert_eq!(point.to_offset(&snapshot), ConcealOffset(O(offset)));
    }
    // Within the replacement, and behind the text.
    assert_eq!(ConcealOffset(O(4)).to_point(&snapshot), ConcealPoint::new(1, 0));
    assert_eq!(ConcealOffset(O(90)).to_point(&snapshot), ConcealPoint::new(2, 1));
    assert_eq!(ConcealPoint::new(9, 9).to_offset(&snapshot), ConcealOffset(O(7)));
}

#[test]
fn points_lead_from_one_space_to_the_other() {
    let (_, snapshot, _) = conceal("ab\nlambda\nc", &[(3, 9, "λ")]);
    let shown = |row, column, bias| snapshot.to_conceal_point(FoldPoint::new(row, column), bias);
    assert_eq!(shown(0, 1, Bias::Left), ConcealPoint::new(0, 1));
    assert_eq!(shown(1, 0, Bias::Right), ConcealPoint::new(1, 0));
    assert_eq!(shown(1, 3, Bias::Left), ConcealPoint::new(1, 0));
    assert_eq!(shown(1, 3, Bias::Right), ConcealPoint::new(1, 2));
    assert_eq!(shown(1, 6, Bias::Left), ConcealPoint::new(1, 2));
    assert_eq!(shown(2, 1, Bias::Left), ConcealPoint::new(2, 1));
    assert_eq!(shown(7, 7, Bias::Left), ConcealPoint::new(2, 1));
    assert_eq!(ConcealPoint::new(1, 2).to_fold_point(&snapshot), FoldPoint::new(1, 6));
    assert_eq!(ConcealPoint::new(1, 1).to_fold_point(&snapshot), FoldPoint::new(1, 1));
    assert_eq!(ConcealPoint::new(2, 1).to_fold_point(&snapshot), FoldPoint::new(2, 1));
}

#[test]
fn a_point_cursor_maps_like_the_snapshot() {
    let (_, snapshot, _) = conceal("a != b && c", &[(2, 4, "≠"), (7, 9, "∧")]);
    for bias in [Bias::Left, Bias::Right] {
        let mut cursor = snapshot.conceal_point_cursor();
        for column in 0..=11 {
            let point = FoldPoint::new(0, column);
            assert_eq!(cursor.map(point, bias), snapshot.to_conceal_point(point, bias));
        }
    }
}

#[test]
fn without_concealments_both_spaces_are_the_same() {
    let buffer = Buffer::new("ab\ncd");
    let (_, snapshot) = ConcealMap::new(buffer.snapshot());
    let point = FoldPoint::new(1, 1);
    assert_eq!(snapshot.to_conceal_point(point, Bias::Left), ConcealPoint::new(1, 1));
    assert_eq!(ConcealPoint::new(1, 1).to_fold_point(&snapshot), point);
    assert_eq!(ConcealPoint::new(1, 1).to_offset(&snapshot), ConcealOffset(O(4)));
    assert_eq!(ConcealOffset(O(4)).to_point(&snapshot), ConcealPoint::new(1, 1));
    assert_eq!(snapshot.line_len(0), 2);
    assert_eq!(snapshot.clip_point(ConcealPoint::new(0, 9), Bias::Left), ConcealPoint::new(0, 2));
    assert_eq!(snapshot.conceal_point_cursor().map(point, Bias::Right), ConcealPoint::new(1, 1));
    assert_eq!(read_chunks(&snapshot, 1, 4), "b\nc");
    let summary =
        snapshot.text_summary_for_range(ConcealPoint::new(0, 1)..ConcealPoint::new(1, 1));
    assert_eq!(summary.len, O(3));
    assert_eq!(summary.lines, Point::new(1, 1));
}

#[test]
fn rows_have_their_length() {
    let (_, snapshot, _) = conceal("ab\nlambda x\n", &[(3, 9, "λ")]);
    assert_eq!(snapshot.line_len(0), 2);
    assert_eq!(snapshot.line_len(1), 4);
    assert_eq!(snapshot.line_len(2), 0);
    assert_eq!(snapshot.line_len(3), 0);
}

#[test]
fn rows_that_are_concealed_are_left_out() {
    let (_, snapshot, _) = conceal("a\nb\nc\nd", &[(2, 5, "…")]);
    assert_eq!(snapshot.text(), "a\n…\nd");
    let mut rows = snapshot.row_infos(0);
    let mut seen = Vec::new();
    while let Some(row) = rows.next() {
        seen.push(row.buffer_row);
    }
    assert_eq!(seen, [Some(0), Some(1), Some(3)]);

    rows.seek(2);
    assert_eq!(rows.next().and_then(|row| row.buffer_row), Some(3));
    assert!(rows.next().is_none());
    let mut rows = snapshot.row_infos(1);
    assert_eq!(rows.next().and_then(|row| row.buffer_row), Some(1));
    assert_eq!(rows.next().and_then(|row| row.buffer_row), Some(3));
}

#[test]
fn summaries_measure_the_displayed_text() {
    let (_, snapshot, _) = conceal("ab\nlambda x\nc", &[(3, 9, "λ")]);
    let summary =
        snapshot.text_summary_for_range(ConcealPoint::new(0, 1)..ConcealPoint::new(2, 1));
    assert_eq!(
        summary,
        MBTextSummary {
            len: O(8),
            chars: 7,
            len_utf16: 7,
            lines: Point::new(2, 1),
            first_line_chars: 1,
            last_line_chars: 1,
            last_line_len_utf16: 1,
            longest_row: 1,
            longest_row_chars: 3,
        }
    );
    assert_eq!(summary, MBTextSummary::of_text("b\nλ x\nc"));
    assert_eq!(MBTextSummary::of_text("a𝄞").len_utf16, 3);
}

#[test]
fn summaries_add_up() {
    let text = "one\ntwo three\nλ";
    for at in (0..=text.len()).filter(|&at| text.is_char_boundary(at)) {
        let mut summary = MBTextSummary::of_text(&text[..at]);
        summary.append(MBTextSummary::of_text(&text[at..]));
        assert_eq!(summary, MBTextSummary::of_text(text));
    }
}

#[test]
fn chunks_and_characters_go_on_from_a_point() {
    let (_, snapshot, _) = conceal("hello != world", &[(6, 8, "≠")]);
    let mut chunks = snapshot.chunks_at(ConcealPoint::new(0, 4));
    let mut text = String::new();
    while let Some(chunk) = chunks.next() {
        text.push_str(chunk.text);
    }
    assert_eq!(text, "o ≠ world");
    let chars: String = snapshot.chars_at(ConcealPoint::new(0, 6)).into_iter().collect();
    assert_eq!(chars, "≠ world");
}

#[test]
fn chunks_can_be_walked_over_again() {
    let (_, snapshot, _) = conceal("hello != world", &[(6, 8, "≠")]);
    let styling = &snapshot.fold_snapshot.styling;
    let mut chunks = snapshot.chunks(ConcealOffset(O(0))..snapshot.len(), styling);
    assert_eq!(chunks.next().map(|chunk| chunk.text), Some("hello "));
    assert_eq!(chunks.next().map(|chunk| chunk.text), Some("≠"));
    chunks.seek(ConcealOffset(O(4))..ConcealOffset(O(11)));
    assert_eq!(chunks.next().map(|chunk| chunk.text), Some("o "));
    assert_eq!(chunks.next().map(|chunk| chunk.text), Some("≠"));
    assert_eq!(chunks.next().map(|chunk| chunk.text), Some(" w"));
    assert!(chunks.next().is_none());
}

#[test]
fn a_walk_that_starts_within_a_replacement_gives_all_of_it() {
    let (_, snapshot, _) = conceal("a != b", &[(2, 4, "≠")]);
    let styling = &snapshot.fold_snapshot.styling;
    let mut chunks = snapshot.chunks(ConcealOffset(O(3))..snapshot.len(), styling);
    assert_eq!(chunks.next().map(|chunk| chunk.text), Some("≠"));
    assert_eq!(chunks.next().map(|chunk| chunk.text), Some(" b"));
    assert!(chunks.next().is_none());
}

#[test]
fn an_empty_replacement_is_a_chunk_of_its_own() {
    let (_, snapshot, _) = conceal("a != b", &[(2, 4, "")]);
    assert_eq!(snapshot.text(), "a  b");
    let styling = &snapshot.fold_snapshot.styling;
    let mut chunks = snapshot.chunks(ConcealOffset(O(0))..snapshot.len(), styling);
    assert_eq!(chunks.next().map(|chunk| chunk.text), Some("a "));
    assert_eq!(chunks.next().map(|chunk| chunk.text), Some(""));
    assert_eq!(chunks.next().map(|chunk| chunk.text), Some(" b"));
    assert!(chunks.next().is_none());
}

#[test]
fn a_replacement_is_styled_like_the_start_of_what_it_replaces() {
    let mut buffer = Buffer::new("a\tnot in b");
    let concealments = vec![buffer.conceal(2, 8, "∉")];
    let mut fold = buffer.snapshot();
    let plain = fold.styling.runs[0];
    let run = |len: usize, from: usize, id: u32| Run {
        len,
        tabs: if from <= 1 && 1 < from + len { 1 << (1 - from) } else { 0 },
        chars: (1 << len) - 1,
        syntax_highlight_id: Some(id),
        underline: id == 2,
        is_inlay: id == 2,
        ..plain
    };
    fold.styling.runs =
        vec![run(2, 0, 1), run(3, 2, 2), run(1, 5, 3), run(4, 6, 4)];
    let (mut map, _) = ConcealMap::new(fold);
    let (snapshot, _) = map.set_concealments(concealments);
    assert_eq!(snapshot.text(), "a\t∉ b");

    let styling = &snapshot.fold_snapshot.styling;
    let mut chunks = snapshot.chunks(ConcealOffset(O(1))..snapshot.len(), styling);
    let tab = chunks.next().expect("the tab");
    assert_eq!((tab.text, tab.tabs, tab.chars), ("\t", 1, 1));
    assert_eq!(tab.syntax_highlight_id, Some(1));
    let shown = chunks.next().expect("the replacement");
    assert_eq!((shown.text, shown.tabs, shown.chars, shown.newlines), ("∉", 0, 0, 0));
    assert_eq!(shown.syntax_highlight_id, Some(2));
    assert!(shown.underline);
    assert!(!shown.is_inlay);
    let tail = chunks.next().expect("the rest of the last run");
    assert_eq!((tail.text, tail.chars), (" b", 0b11));
    assert_eq!(tail.syntax_highlight_id, Some(4));
    assert!(chunks.next().is_none());
}

#[test]
fn the_bits_of_a_chunk_stand_for_its_bytes() {
    let text = "ab\tλ\n".repeat(40);
    let (_, snapshot, _) = conceal(&text, &[(30, 33, "—"), (132, 135, "—")]);
    let styling = &snapshot.fold_snapshot.styling;
    let mut chunks = snapshot.chunks(ConcealOffset(O(1))..snapshot.len(), styling);
    let mut replacements = 0;
    while let Some(chunk) = chunks.next() {
        if chunk.text == "—" {
            replacements += 1;
            continue;
        }
        assert!(chunk.text.len() <= 128);
        for (i, byte) in chunk.text.bytes().enumerate() {
            assert_eq!(chunk.tabs >> i & 1 == 1, byte == b'\t');
            assert_eq!(chunk.newlines >> i & 1 == 1, byte == b'\n');
            assert_eq!(chunk.chars >> i & 1 == 1, chunk.text.is_char_boundary(i));
        }
    }
    assert_eq!(replacements, 2);
}

#[test]
fn clipping_comes_to_rest_between_characters() {
    let (_, snapshot, _) = conceal("λλ != b", &[(5, 7, "≠")]);
    assert_eq!(snapshot.text(), "λλ ≠ b");
    let clip = |column, bias| snapshot.clip_point(ConcealPoint::new(0, column), bias);
    assert_eq!(clip(1, Bias::Left), ConcealPoint::new(0, 0));
    assert_eq!(clip(1, Bias::Right), ConcealPoint::new(0, 2));
    assert_eq!(clip(5, Bias::Right), ConcealPoint::new(0, 5));
    assert_eq!(clip(6, Bias::Right), ConcealPoint::new(0, 8));
    assert_eq!(clip(9, Bias::Left), ConcealPoint::new(0, 9));
}

#[test]
fn points_and_offsets_can_be_reckoned_with() {
    let mut point = ConcealPoint::new(3, 4);
    *point.row_mut() += 2;
    assert_eq!((point.row(), point.column()), (5, 4));
    assert_eq!(ConcealPoint::default(), ConcealPoint::new(0, 0));

    let mut offset = ConcealOffset(O(5)) + ConcealOffset(O(2)) + 1;
    assert_eq!(offset, ConcealOffset(O(8)));
    assert_eq!(offset - ConcealOffset(O(3)), 5);
    offset.add_assign(4);
    offset.sub_assign(2);
    assert_eq!(offset, ConcealOffset(O(10)));
    offset.add_assign_offset(ConcealOffset(O(5)));
    assert_eq!(offset, ConcealOffset(O(15)));
    assert_eq!(ConcealOffset::default(), ConcealOffset(O(0)));

    assert_eq!(Point::new(1, 5).plus(Point::new(0, 3)), Point::new(1, 8));
    assert_eq!(Point::new(1, 5).plus(Point::new(2, 3)), Point::new(3, 3));
    assert_eq!(Point::new(3, 3).minus(Point::new(1, 5)), Point::new(2, 3));
    assert_eq!(Point::new(3, 3).minus(Point::new(3, 1)), Point::new(0, 2));
    assert_eq!(Point::new(3, 3).earlier(Point::new(2, 9)), Point::new(2, 9));
}

#[test]
fn rotations_advance_thirty_times_a_second() {
    assert_eq!(rotation_steps(0), 1);
    assert_eq!(rotation_steps(1), 30);
    assert_eq!(rotation_steps(7), 210);
    assert_eq!(rotation_steps(u64::MAX), u64::MAX as usize);
}

#[test]
fn edits_apart_from_concealments_keep_them() {
    let (mut map, snapshot, mut buffer) = conceal("a != b && c", &[(2, 4, "≠"), (7, 9, "∧")]);
    let before = snapshot.text();
    let mut edits = buffer.edit(0, 1, "alpha");
    let second = buffer.edit(9, 10, "b + b");
    edits.push(Edit {
        old: FoldOffset(O(5))..FoldOffset(O(6)),
        new: second[0].new.start..second[0].new.end,
    });
    assert_eq!(buffer.text, "alpha != b + b && c");
    let (snapshot, edits) = map.read(buffer.snapshot(), edits);
    assert_eq!(snapshot.text(), "alpha ≠ b + b ∧ c");
    assert_eq!(patched(&before, &snapshot.text(), &edits), snapshot.text());
}

#[test]
fn an_edit_that_ends_where_a_concealment_starts_keeps_it() {
    let (mut map, snapshot, mut buffer) = conceal("ab!=c", &[(2, 4, "≠")]);
    let before = snapshot.text();
    let edits = buffer.edit(0, 2, "xyz");
    let (snapshot, edits) = map.read(buffer.snapshot(), edits);
    assert_eq!(snapshot.text(), "xyz≠c");
    assert_eq!(patched(&before, &snapshot.text(), &edits), snapshot.text());
}

#[test]
fn revealing_back_undoes_the_edits() {
    let (mut map, first, buffer) =
        conceal("a != b && c -> d", &[(2, 4, "≠"), (7, 9, ""), (12, 14, "→")]);
    let (there, out) = read_revealed(&mut map, &buffer, &[0, 1]);
    assert_eq!(there.text(), "a != b && c → d");
    assert_eq!(ranges_of(&out), [(2, 5, 2, 4), (8, 8, 7, 9)]);
    let (back, home) = read_revealed(&mut map, &buffer, &[]);
    assert_eq!(back.text(), first.text());
    assert_eq!(back.version, first.version + 2);
    let undone: Vec<_> =
        ranges_of(&out).into_iter().map(|(a, b, c, d)| (c, d, a, b)).collect();
    assert_eq!(ranges_of(&home), undone);
}

#[test]
fn setting_the_same_concealments_again_changes_nothing() {
    let mut buffer = Buffer::new("a != b");
    let concealments = vec![buffer.conceal(2, 4, "≠")];
    let (mut map, _) = ConcealMap::new(buffer.snapshot());
    let (once, _) = map.set_concealments(concealments.clone());
    let (twice, edits) = map.set_concealments(concealments);
    assert!(edits.is_empty());
    assert_eq!(twice.text(), once.text());
    assert_eq!(twice.version, once.version + 1);
}

#[test]
fn a_clipped_point_stays_where_it_is() {
    let (_, snapshot, _) = conceal("λx != b\nlambda y", &[(4, 6, "≠"), (9, 15, "λ")]);
    assert_eq!(snapshot.text(), "λx ≠ b\nλ y");
    let last = snapshot.max_point();
    for row in 0..3 {
        for column in 0..12 {
            let point = ConcealPoint::new(row, column);
            for bias in [Bias::Left, Bias::Right] {
                let clipped = snapshot.clip_point(point, bias);
                assert_eq!(snapshot.clip_point(clipped, Bias::Left), clipped);
                assert_eq!(snapshot.clip_point(clipped, Bias::Right), clipped);
                let offset = clipped.to_offset(&snapshot).0.0;
                assert!(snapshot.text().is_char_boundary(offset));
                assert!(bias == Bias::Right || clipped.0.at_most(point.0));
                assert!(point.0.at_most(last.0) || clipped == last);
            }
        }
    }
}

#[test]
fn points_are_shown_in_their_order() {
    let (_, snapshot, _) = conceal("ab != c\nlambda y", &[(3, 5, "≠"), (8, 14, "")]);
    let last = snapshot.max_point();
    for bias in [Bias::Left, Bias::Right] {
        let mut before = ConcealPoint::new(0, 0);
        for row in 0..3 {
            for column in 0..12 {
                let point = FoldPoint::new(row, column);
                let shown = snapshot.to_conceal_point(point, bias);
                assert!(before.0.at_most(shown.0));
                assert!(shown.0.at_most(last.0));
                let left = snapshot.to_conceal_point(point, Bias::Left);
                assert!(left.0.at_most(snapshot.to_conceal_point(point, Bias::Right).0));
                before = shown;
            }
        }
        assert_eq!(before, last);
    }
}

#[test]
fn a_walk_gives_every_row_once() {
    let (_, snapshot, _) = conceal("a\nb\nc\nd\ne", &[(2, 5, "…"), (7, 8, "–")]);
    assert_eq!(snapshot.text(), "a\n…\nd–e");
    let last = snapshot.max_point().row();
    for start in 0..=last {
        let mut rows = snapshot.row_infos(start);
        for row in start..=last {
            let below = ConcealPoint::new(row, 0).to_fold_point(&snapshot).0.row;
            assert_eq!(rows.next().and_then(|info| info.buffer_row), Some(below));
        }
        assert!(rows.next().is_none());
    }
}

#[test]
fn without_concealments_edits_come_out_as_they_are() {
    let mut buffer = Buffer::new("one two three");
    let (mut map, _) = ConcealMap::new(buffer.snapshot());
    let mut edits = buffer.edit(0, 3, "eins");
    let second = buffer.edit(9, 14, "");
    edits.push(Edit {
        old: FoldOffset(O(8))..FoldOffset(O(13)),
        new: second[0].new.start..second[0].new.end,
    });
    assert_eq!(buffer.text, "eins two ");
    let (snapshot, edits) = map.read(buffer.snapshot(), edits);
    assert_eq!(snapshot.text(), "eins two ");
    assert_eq!(ranges_of(&edits), [(0, 3, 0, 4), (8, 13, 9, 9)]);
}

#[test]
fn without_concealments_edits_that_touch_are_joined() {
    let mut buffer = Buffer::new("abcd");
    let (mut map, _) = ConcealMap::new(buffer.snapshot());
    let mut edits = buffer.edit(0, 1, "xy");
    let second = buffer.edit(2, 4, "z");
    edits.push(Edit {
        old: FoldOffset(O(1))..FoldOffset(O(3)),
        new: second[0].new.start..second[0].new.end,
    });
    assert_eq!(buffer.text, "xyzd");
    let (snapshot, edits) = map.read(buffer.snapshot(), edits);
    assert_eq!(snapshot.text(), "xyzd");
    assert_eq!(ranges_of(&edits), [(0, 3, 0, 3)]);
}
