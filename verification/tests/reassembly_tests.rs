use raytracer::job::RenderResult;
use raytracer::reassembly::ReassemblyBuffer;
use raytracer::reassembly::RowOrder;

type Pixel = (f32, f32, f32);

fn scanline(line_num: i32) -> RenderResult<Pixel> {
    let shade: f32 = line_num as f32;
    RenderResult { line_num, line: vec![(shade, 0.5, 1.0), (0.0, shade, 0.25)] }
}

fn rows(lines: &Vec<RenderResult<Pixel>>) -> Vec<i32> {
    lines.iter().map(|l| l.line_num).collect()
}

fn deliver(buffer: &mut ReassemblyBuffer<Pixel>, arrivals: &[i32]) -> Vec<RenderResult<Pixel>> {
    let mut written: Vec<RenderResult<Pixel>> = Vec::new();
    for row in arrivals {
        written.extend(buffer.accept(scanline(*row)));
    }
    written
}

fn permutations(items: Vec<i32>) -> Vec<Vec<i32>> {
    if items.len() <= 1 {
        return vec![items];
    }
    let mut all: Vec<Vec<i32>> = Vec::new();
    for index in 0..items.len() {
        let mut rest = items.clone();
        let head = rest.remove(index);
        for mut tail in permutations(rest) {
            tail.insert(0, head);
            all.push(tail);
        }
    }
    all
}

#[test]
fn new_buffer_is_empty_and_waits_for_the_first_row() {
    let buffer: ReassemblyBuffer<Pixel> = ReassemblyBuffer::new(3, RowOrder::Descending);
    assert_eq!(buffer.next_row(), 3);
    assert_eq!(buffer.held(), 0);
    assert_eq!(buffer.order(), RowOrder::Descending);
}

#[test]
fn every_permutation_of_four_rows_comes_out_descending() {
    let all = permutations(vec![0, 1, 2, 3]);
    assert_eq!(all.len(), 24);
    for arrivals in all {
        let mut buffer: ReassemblyBuffer<Pixel> = ReassemblyBuffer::new(3, RowOrder::Descending);
        let written = deliver(&mut buffer, &arrivals);
        assert_eq!(rows(&written), vec![3, 2, 1, 0]);
        assert_eq!(buffer.held(), 0);
        assert_eq!(buffer.next_row(), -1);
    }
}

#[test]
fn every_permutation_of_four_rows_comes_out_ascending() {
    for arrivals in permutations(vec![0, 1, 2, 3]) {
        let mut buffer: ReassemblyBuffer<Pixel> = ReassemblyBuffer::new(0, RowOrder::Ascending);
        let written = deliver(&mut buffer, &arrivals);
        assert_eq!(rows(&written), vec![0, 1, 2, 3]);
        assert_eq!(buffer.held(), 0);
        assert_eq!(buffer.next_row(), 4);
    }
}

#[test]
fn written_scanlines_keep_their_pixels() {
    let mut buffer: ReassemblyBuffer<Pixel> = ReassemblyBuffer::new(3, RowOrder::Descending);
    let written = deliver(&mut buffer, &[1, 3, 0, 2]);
    assert_eq!(written.len(), 4);
    for line in &written {
        assert_eq!(line.line, scanline(line.line_num).line);
    }
}

#[test]
fn rows_wait_until_the_due_row_arrives() {
    let mut buffer: ReassemblyBuffer<Pixel> = ReassemblyBuffer::new(3, RowOrder::Descending);
    assert_eq!(rows(&buffer.accept(scanline(1))), vec![]);
    assert_eq!(buffer.held(), 1);
    assert_eq!(rows(&buffer.accept(scanline(2))), vec![]);
    assert_eq!(buffer.held(), 2);
    assert_eq!(buffer.next_row(), 3);
    assert_eq!(rows(&buffer.accept(scanline(3))), vec![3, 2, 1]);
    assert_eq!(buffer.held(), 0);
    assert_eq!(buffer.next_row(), 0);
    assert_eq!(rows(&buffer.accept(scanline(0))), vec![0]);
    assert_eq!(buffer.next_row(), -1);
}

#[test]
fn a_run_stops_at_the_first_gap() {
    let mut buffer: ReassemblyBuffer<Pixel> = ReassemblyBuffer::new(0, RowOrder::Ascending);
    assert_eq!(rows(&buffer.accept(scanline(1))), vec![]);
    assert_eq!(rows(&buffer.accept(scanline(3))), vec![]);
    assert_eq!(rows(&buffer.accept(scanline(4))), vec![]);
    assert_eq!(rows(&buffer.accept(scanline(0))), vec![0, 1]);
    assert_eq!(buffer.held(), 2);
    assert_eq!(buffer.next_row(), 2);
    assert_eq!(rows(&buffer.accept(scanline(2))), vec![2, 3, 4]);
    assert_eq!(buffer.held(), 0);
    assert_eq!(buffer.next_row(), 5);
}

#[test]
fn rows_in_order_pass_straight_through() {
    let mut buffer: ReassemblyBuffer<Pixel> = ReassemblyBuffer::new(2, RowOrder::Descending);
    assert_eq!(rows(&buffer.accept(scanline(2))), vec![2]);
    assert_eq!(rows(&buffer.accept(scanline(1))), vec![1]);
    assert_eq!(rows(&buffer.accept(scanline(0))), vec![0]);
    assert_eq!(buffer.held(), 0);
}

#[test]
fn a_row_that_was_due_earlier_holds_back_the_rest() {
    let mut buffer: ReassemblyBuffer<Pixel> = ReassemblyBuffer::new(3, RowOrder::Descending);
    assert_eq!(rows(&buffer.accept(scanline(5))), vec![]);
    assert_eq!(rows(&buffer.accept(scanline(3))), vec![]);
    assert_eq!(rows(&buffer.accept(scanline(2))), vec![]);
    assert_eq!(buffer.held(), 3);
    assert_eq!(buffer.next_row(), 3);
}

#[test]
fn a_second_scanline_of_a_row_is_kept_apart() {
    let mut buffer: ReassemblyBuffer<Pixel> = ReassemblyBuffer::new(1, RowOrder::Descending);
    let first = RenderResult { line_num: 0, line: vec![(1.0f32, 1.0f32, 1.0f32)] };
    let second = RenderResult { line_num: 0, line: vec![(2.0f32, 2.0f32, 2.0f32)] };
    assert_eq!(rows(&buffer.accept(first)), vec![]);
    assert_eq!(rows(&buffer.accept(second)), vec![]);
    assert_eq!(buffer.held(), 2);
    let written = buffer.accept(scanline(1));
    assert_eq!(rows(&written), vec![1, 0]);
    assert_eq!(written[1].line, vec![(1.0f32, 1.0f32, 1.0f32)]);
    assert_eq!(buffer.held(), 1);
    assert_eq!(buffer.next_row(), -1);
}

#[test]
fn the_cursor_can_leave_the_row_range() {
    let mut down: ReassemblyBuffer<Pixel> = ReassemblyBuffer::new(i32::MIN, RowOrder::Descending);
    assert_eq!(rows(&down.accept(scanline(i32::MIN))), vec![i32::MIN]);
    assert_eq!(down.next_row(), i64::from(i32::MIN) - 1);
    let mut up: ReassemblyBuffer<Pixel> = ReassemblyBuffer::new(i32::MAX, RowOrder::Ascending);
    assert_eq!(rows(&up.accept(scanline(i32::MAX))), vec![i32::MAX]);
    assert_eq!(up.next_row(), i64::from(i32::MAX) + 1);
    assert_eq!(rows(&up.accept(scanline(0))), vec![]);
    assert_eq!(up.held(), 1);
}
